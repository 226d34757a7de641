//! The path of a ray through a scene.
//!
//! A ray travels until it meets nothing, is absorbed, has bounced as often as
//! the budget allows, or would leave the plane. At each surface that it
//! meets, a vertex is recorded and the ray goes on from a point a small step
//! along its new direction, so that it does not meet the same surface again
//! where it stands.

use vstd::prelude::*;
use crate::error::GeometryError;
use crate::fixed::{UNIT, divide, lemma_div_trunc_shrinks, lemma_product_bound,
    lemma_square_bound};
use crate::intersect::{hit_normal, hit_point, nearest_hit, nearest_index};
use crate::optics::{respond, response};
use crate::ray::Ray;
use crate::segment::{Scene, Segment};
use crate::vector::{IntVec, Point2, Vector2};

verus! {

/// Why a path ends.
#[derive(Clone, Copy, Debug, PartialEq, Eq, Structural)]
pub enum Termination {
    /// The ray meets nothing more, or would leave the plane.
    Exited,
    /// The ray has bounced as often as the budget allows.
    HopLimitReached,
    /// The ray met a surface that is neither reflective nor refractive.
    Absorbed,
}

/// A point of a path, with the direction in which the ray arrives and the
/// one in which it leaves. A ray that is absorbed does not leave. At the
/// first vertex both directions are that of the ray.
#[derive(Clone, Copy, Debug, PartialEq, Eq)]
pub struct PathVertex {
    pub point: Point2,
    pub incoming: Vector2,
    pub outgoing: Option<Vector2>,
}

/// The vertices of a path, from the origin of the ray on, and why it ends.
#[derive(Clone, Debug, PartialEq, Eq)]
pub struct RayPath {
    pub vertices: Vec<PathVertex>,
    pub termination: Termination,
}

/// How a ray is traced.
#[derive(Clone, Copy, Debug, PartialEq, Eq, Structural)]
pub struct TraceConfig {
    /// How often the ray may bounce. At least one.
    pub max_bounces: u32,
    /// How far from a surface the ray goes on, in millionths.
    pub epsilon: i64,
    /// The index of refraction of the medium around the segments, in
    /// millionths. Positive.
    pub ambient_index_of_refraction: u32,
}

/// The mathematical model of a [`PathVertex`].
pub struct VertexModel {
    pub point: IntVec,
    pub incoming: IntVec,
    pub outgoing: Option<IntVec>,
}

/// The mathematical model of a [`RayPath`].
pub struct PathModel {
    pub vertices: Seq<VertexModel>,
    pub termination: Termination,
}

impl View for PathVertex {
    type V = VertexModel;

    open spec fn view(&self) -> VertexModel {
        VertexModel {
            point: self.point@,
            incoming: self.incoming@,
            outgoing: match self.outgoing {
                Some(v) => Some(v@),
                None => None,
            },
        }
    }
}

impl View for RayPath {
    type V = PathModel;

    open spec fn view(&self) -> PathModel {
        PathModel {
            vertices: Seq::new(self.vertices@.len(), |i: int| self.vertices@[i]@),
            termination: self.termination,
        }
    }
}

impl PathModel {
    /// This path after the vertex `first`.
    pub open spec fn after(self, first: VertexModel) -> PathModel {
        PathModel { vertices: seq![first] + self.vertices, termination: self.termination }
    }

    /// The path of the one vertex `only`.
    pub open spec fn single(only: VertexModel, termination: Termination) -> PathModel {
        PathModel { vertices: seq![only], termination }
    }
}

/// The point lies in the plane: its coordinates are `i32` values.
pub open spec fn in_plane(p: IntVec) -> bool {
    i32::MIN <= p.x <= i32::MAX && i32::MIN <= p.y <= i32::MAX
}

/// Where a ray goes on after a surface: `epsilon` along its new direction
/// from the point where it met the surface.
pub open spec fn step_origin(point: IntVec, outgoing: IntVec, epsilon: int) -> IntVec {
    point.add(outgoing.scale(epsilon))
}

/// The path of a ray from its first meeting with a surface on.
///
/// `last` is the segment that the ray has just left, which it cannot meet,
/// and `budget` the number of bounces that it may still make.
pub open spec fn trace_from(
    scene: Seq<Segment>,
    origin: IntVec,
    direction: IntVec,
    last: Option<Segment>,
    budget: nat,
    epsilon: int,
    ambient: int,
) -> PathModel
    decreases budget,
{
    match nearest_index(origin, direction, scene, last) {
        None => PathModel { vertices: Seq::empty(), termination: Termination::Exited },
        Some(i) => {
            let seg = scene[i];
            let point = hit_point(origin, direction, seg);
            let normal = hit_normal(direction, seg);
            let outgoing = response(direction, normal, seg.material, ambient);
            let vertex = VertexModel { point, incoming: direction, outgoing };
            match outgoing {
                None => PathModel::single(vertex, Termination::Absorbed),
                Some(out) => {
                    let next = step_origin(point, out, epsilon);
                    if budget <= 1 {
                        PathModel::single(vertex, Termination::HopLimitReached)
                    } else if !in_plane(next) {
                        PathModel::single(vertex, Termination::Exited)
                    } else {
                        trace_from(
                            scene,
                            next,
                            out,
                            Some(seg),
                            (budget - 1) as nat,
                            epsilon,
                            ambient,
                        ).after(vertex)
                    }
                },
            }
        },
    }
}

/// The path of a ray through a scene: its origin, then what `trace_from`
/// says.
pub open spec fn traced(
    scene: Seq<Segment>,
    origin: IntVec,
    direction: IntVec,
    max_bounces: nat,
    epsilon: int,
    ambient: int,
) -> PathModel {
    trace_from(scene, origin, direction, None, max_bounces, epsilon, ambient).after(
        VertexModel { point: origin, incoming: direction, outgoing: Some(direction) },
    )
}

impl TraceConfig {
    /// The bounce budget and the ambient index of refraction are positive.
    pub open spec fn wf(self) -> bool {
        self.max_bounces > 0 && self.ambient_index_of_refraction > 0
    }

    /// A configuration of the given values.
    ///
    /// Fails with `InvalidConfiguration` exactly where the bounce budget or
    /// the ambient index of refraction is zero.
    pub fn new(max_bounces: u32, epsilon: i64, ambient_index_of_refraction: u32) -> (r: Result<
        TraceConfig,
        GeometryError,
    >)
        ensures
            r == if max_bounces == 0 || ambient_index_of_refraction == 0 {
                Err::<TraceConfig, GeometryError>(GeometryError::InvalidConfiguration)
            } else {
                Ok(TraceConfig { max_bounces, epsilon, ambient_index_of_refraction })
            },
            r matches Ok(c) ==> c.wf(),
    {
        if max_bounces == 0 || ambient_index_of_refraction == 0 {
            Err(GeometryError::InvalidConfiguration)
        } else {
            Ok(TraceConfig { max_bounces, epsilon, ambient_index_of_refraction })
        }
    }
}

impl Default for TraceConfig {
    /// Sixteen bounces, a step of one millionth, and air around the
    /// segments.
    fn default() -> (c: TraceConfig)
        ensures
            c == (TraceConfig {
                max_bounces: 16,
                epsilon: 1,
                ambient_index_of_refraction: 1_000_000,
            }),
            c.wf(),
    {
        TraceConfig { max_bounces: 16, epsilon: 1, ambient_index_of_refraction: 1_000_000 }
    }
}

/// The point a step of `epsilon` along `outgoing` from `point`, if it lies
/// in the plane.
pub fn advance(point: Point2, outgoing: Vector2, epsilon: i64) -> (r: Option<Point2>)
    requires
        outgoing@.is_unit(),
    ensures
        match r {
            Some(p) => p@ == step_origin(point@, outgoing@, epsilon as int) && in_plane(p@),
            None => !in_plane(step_origin(point@, outgoing@, epsilon as int)),
        },
{
    proof {
        lemma_square_bound(outgoing.x as int, outgoing.y as int, UNIT + 2);
        lemma_product_bound(
            outgoing.x as int,
            epsilon as int,
            1_000_002,
            0x8000_0000_0000_0000,
        );
        lemma_product_bound(
            outgoing.y as int,
            epsilon as int,
            1_000_002,
            0x8000_0000_0000_0000,
        );
        lemma_div_trunc_shrinks(
            outgoing.x * epsilon,
            UNIT as int,
            1_000_002int * 0x8000_0000_0000_0000int,
        );
        lemma_div_trunc_shrinks(
            outgoing.y * epsilon,
            UNIT as int,
            1_000_002int * 0x8000_0000_0000_0000int,
        );
    }
    let x: i128 = point.x as i128 + divide(outgoing.x as i128 * epsilon as i128, 1_000_000);
    let y: i128 = point.y as i128 + divide(outgoing.y as i128 * epsilon as i128, 1_000_000);
    if x < -2147483648 || x > 2147483647 || y < -2147483648 || y > 2147483647 {
        None
    } else {
        Some(Point2 { x: x as i32, y: y as i32 })
    }
}

/// The path of `ray` through `scene`.
///
/// The path begins with the origin of the ray. Each surface that the ray
/// meets adds a vertex. The path ends as `Exited` where the ray meets
/// nothing more or its next step would leave the plane, as `Absorbed` at a
/// surface that is neither reflective nor refractive, and as
/// `HopLimitReached` at the bounce that uses up the budget.
pub fn trace_ray(scene: &Scene, ray: Ray, config: &TraceConfig) -> (path: RayPath)
    requires
        scene.wf(),
        ray.wf(),
        config.wf(),
    ensures
        path@ == traced(
            scene@,
            ray.origin@,
            ray.direction@,
            config.max_bounces as nat,
            config.epsilon as int,
            config.ambient_index_of_refraction as int,
        ),
        1 <= path.vertices@.len() <= config.max_bounces + 1,
        path.termination is HopLimitReached ==> path.vertices@.len() == config.max_bounces + 1,
        path.vertices@[0] == (PathVertex {
            point: ray.origin,
            incoming: ray.direction,
            outgoing: Some(ray.direction),
        }),
{
    let ghost eps = config.epsilon as int;
    let ghost amb = config.ambient_index_of_refraction as int;
    let ghost goal = traced(
        scene@,
        ray.origin@,
        ray.direction@,
        config.max_bounces as nat,
        eps,
        amb,
    );
    let start = PathVertex {
        point: ray.origin,
        incoming: ray.direction,
        outgoing: Some(ray.direction),
    };
    let mut path = RayPath { vertices: Vec::new(), termination: Termination::Exited };
    path.vertices.push(start);
    let mut current = ray;
    let mut last: Option<Segment> = None;
    let mut budget: u32 = config.max_bounces;
    let mut done = false;
    proof {
        assert(path@.vertices =~= seq![start@]);
    }
    while !done
        invariant
            scene.wf(),
            config.wf(),
            eps == config.epsilon as int,
            amb == config.ambient_index_of_refraction as int,
            path.vertices@.len() >= 1,
            path.vertices@[0] == start,
            path.vertices@.len() <= config.max_bounces + 1,
            path.termination is HopLimitReached ==> done && path.vertices@.len()
                == config.max_bounces + 1,
            done ==> path@ == goal,
            !done ==> {
                &&& current.wf()
                &&& budget >= 1
                &&& path.vertices@.len() + budget == config.max_bounces + 1
                &&& path.termination is Exited
                &&& ({
                    let rest = trace_from(
                        scene@,
                        current.origin@,
                        current.direction@,
                        last,
                        budget as nat,
                        eps,
                        amb,
                    );
                    goal == (PathModel {
                        vertices: path@.vertices + rest.vertices,
                        termination: rest.termination,
                    })
                })
            },
        decreases budget + (if done { 0int } else { 1int }),
    {
        let ghost before = path@.vertices;
        let ghost rest = trace_from(
            scene@,
            current.origin@,
            current.direction@,
            last,
            budget as nat,
            eps,
            amb,
        );
        let exclude: Option<&Segment> = match &last {
            Some(s) => Some(s),
            None => None,
        };
        match nearest_hit(&current, scene, exclude) {
            None => {
                done = true;
                proof {
                    assert(before + rest.vertices =~= before);
                }
            },
            Some(hit) => {
                let outgoing = respond(
                    current.direction,
                    hit.normal,
                    hit.segment.material,
                    config.ambient_index_of_refraction,
                );
                let vertex = PathVertex {
                    point: hit.point,
                    incoming: current.direction,
                    outgoing,
                };
                path.vertices.push(vertex);
                proof {
                    assert(path@.vertices =~= before.push(vertex@));
                }
                match outgoing {
                    None => {
                        path.termination = Termination::Absorbed;
                        done = true;
                        proof {
                            assert(before + rest.vertices =~= before.push(vertex@));
                        }
                    },
                    Some(out) => {
                        if budget == 1 {
                            path.termination = Termination::HopLimitReached;
                            done = true;
                            proof {
                                assert(before + rest.vertices =~= before.push(vertex@));
                            }
                        } else {
                            match advance(hit.point, out, config.epsilon) {
                                None => {
                                    done = true;
                                    proof {
                                        assert(before + rest.vertices =~= before.push(vertex@));
                                    }
                                },
                                Some(origin) => {
                                    current = Ray { origin, direction: out };
                                    last = Some(hit.segment);
                                    budget = budget - 1;
                                    proof {
                                        let tail = trace_from(
                                            scene@,
                                            current.origin@,
                                            current.direction@,
                                            last,
                                            budget as nat,
                                            eps,
                                            amb,
                                        );
                                        assert(rest == tail.after(vertex@));
                                        assert(before + rest.vertices =~= before.push(vertex@)
                                            + tail.vertices);
                                    }
                                },
                            }
                        }
                    },
                }
            },
        }
    }
    path
}

/// The path of the ray from `origin` toward `direction` through `scene`.
///
/// Fails with `DegenerateVector` exactly where `direction` is zero.
pub fn trace(scene: &Scene, origin: Point2, direction: Vector2, config: &TraceConfig) -> (r:
    Result<RayPath, GeometryError>)
    requires
        scene.wf(),
        config.wf(),
    ensures
        match r {
            Ok(path) => !direction@.is_zero() && path@ == traced(
                scene@,
                origin@,
                direction@.normalize(),
                config.max_bounces as nat,
                config.epsilon as int,
                config.ambient_index_of_refraction as int,
            ),
            Err(e) => direction@.is_zero() && e == GeometryError::DegenerateVector,
        },
{
    match Ray::new(origin, direction) {
        Ok(ray) => Ok(trace_ray(scene, ray, config)),
        Err(e) => Err(e),
    }
}

} // verus!

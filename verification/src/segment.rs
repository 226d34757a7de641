//! Segments, the obstacles of a scene, and what they do to light.

use vstd::prelude::*;
use crate::error::GeometryError;
use crate::vector::{IntVec, Point2, Vector2};

verus! {

/// What a surface does to a ray that meets it.
#[derive(Clone, Copy, Debug, PartialEq, Eq, Structural)]
pub enum Material {
    /// The ray ends here.
    Absorptive,
    /// The ray is mirrored.
    Reflective,
    /// The ray is bent by Snell's law, or mirrored where no bent ray exists.
    Refractive {
        /// The index of refraction behind the surface, in millionths.
        index_of_refraction: u32,
    },
}

/// A straight obstacle between two distinct points, with its material.
#[derive(Clone, Copy, Debug, PartialEq, Eq, Structural)]
pub struct Segment {
    pub start: Point2,
    pub end: Point2,
    pub material: Material,
}

/// The segments that a ray can meet, in the order that breaks ties.
#[derive(Clone, Debug, PartialEq, Eq)]
pub struct Scene {
    pub segments: Vec<Segment>,
}

impl Material {
    /// A refractive material has a positive index of refraction.
    pub open spec fn wf(self) -> bool {
        self matches Material::Refractive { index_of_refraction } ==> index_of_refraction > 0
    }

    /// The material that the two flags and the index describe.
    pub open spec fn of_flags(is_reflective: bool, is_refractive: bool, index: u32) -> Material {
        if is_reflective {
            Material::Reflective
        } else if is_refractive {
            Material::Refractive { index_of_refraction: index }
        } else {
            Material::Absorptive
        }
    }
}

impl Segment {
    /// The endpoints differ and the material is well formed.
    pub open spec fn wf(self) -> bool {
        self.start != self.end && self.material.wf()
    }

    /// The displacement from the first endpoint to the second.
    pub open spec fn direction(self) -> IntVec {
        self.end@.sub(self.start@)
    }

    /// The point `p` lies in the smallest upright rectangle that holds the
    /// segment.
    pub open spec fn box_holds(self, p: IntVec) -> bool {
        &&& (self.start.x <= p.x <= self.end.x || self.end.x <= p.x <= self.start.x)
        &&& (self.start.y <= p.y <= self.end.y || self.end.y <= p.y <= self.start.y)
    }

    /// A segment from `start` to `end` of the material that the flags name.
    ///
    /// Fails with `InvalidSegment` where the endpoints coincide or both flags
    /// are set, and otherwise with `InvalidConfiguration` where the segment
    /// is refractive and the index of refraction is zero.
    pub fn new(
        start: Point2,
        end: Point2,
        is_reflective: bool,
        is_refractive: bool,
        index_of_refraction: u32,
    ) -> (r: Result<Segment, GeometryError>)
        ensures
            r == if start == end || (is_reflective && is_refractive) {
                Err::<Segment, GeometryError>(GeometryError::InvalidSegment)
            } else if is_refractive && index_of_refraction == 0 {
                Err(GeometryError::InvalidConfiguration)
            } else {
                Ok(
                    Segment {
                        start,
                        end,
                        material: Material::of_flags(
                            is_reflective,
                            is_refractive,
                            index_of_refraction,
                        ),
                    },
                )
            },
            r matches Ok(s) ==> s.wf(),
    {
        if start == end || (is_reflective && is_refractive) {
            Err(GeometryError::InvalidSegment)
        } else if is_refractive && index_of_refraction == 0 {
            Err(GeometryError::InvalidConfiguration)
        } else if is_reflective {
            Ok(Segment { start, end, material: Material::Reflective })
        } else if is_refractive {
            Ok(Segment { start, end, material: Material::Refractive { index_of_refraction } })
        } else {
            Ok(Segment { start, end, material: Material::Absorptive })
        }
    }

    /// Whether the segment mirrors light.
    pub fn is_reflective(&self) -> (b: bool)
        ensures
            b == (self.material is Reflective),
    {
        match self.material {
            Material::Reflective => true,
            _ => false,
        }
    }

    /// Whether the segment bends light.
    pub fn is_refractive(&self) -> (b: bool)
        ensures
            b == (self.material is Refractive),
    {
        match self.material {
            Material::Refractive { .. } => true,
            _ => false,
        }
    }

    /// The index of refraction of a refractive segment.
    pub fn index_of_refraction(&self) -> (n: Option<u32>)
        ensures
            n == match self.material {
                Material::Refractive { index_of_refraction } => Some(index_of_refraction),
                _ => None,
            },
    {
        match self.material {
            Material::Refractive { index_of_refraction } => Some(index_of_refraction),
            _ => None,
        }
    }

    /// The displacement from the first endpoint to the second.
    pub fn span(&self) -> (v: Vector2)
        ensures
            v@ == self.direction(),
    {
        self.end.subtract(self.start)
    }
}

impl View for Scene {
    type V = Seq<Segment>;

    open spec fn view(&self) -> Seq<Segment> {
        self.segments@
    }
}

impl Scene {
    /// Every segment is well formed.
    pub open spec fn wf(&self) -> bool {
        forall|i: int| 0 <= i < self@.len() ==> (#[trigger] self@[i]).wf()
    }

    /// The scene of the given segments, in their order.
    pub fn new(segments: Vec<Segment>) -> (scene: Scene)
        requires
            forall|i: int| 0 <= i < segments@.len() ==> (#[trigger] segments@[i]).wf(),
        ensures
            scene@ == segments@,
            scene.wf(),
    {
        Scene { segments }
    }

    /// The number of segments.
    pub fn len(&self) -> (n: usize)
        ensures
            n == self@.len(),
    {
        self.segments.len()
    }
}

} // verus!

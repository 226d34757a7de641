use illumiphysics::error::GeometryError;
use illumiphysics::ray::Ray;
use illumiphysics::segment::{Scene, Segment};
use illumiphysics::trace::{advance, trace, trace_ray, PathVertex, Termination, TraceConfig};
use illumiphysics::vector::{Point2, Vector2};

const ONE: i64 = 1_000_000;

fn point(x: i32, y: i32) -> Point2 {
    Point2 { x, y }
}

fn vector(x: i64, y: i64) -> Vector2 {
    Vector2 { x, y }
}

fn mirror(x0: i32, y0: i32, x1: i32, y1: i32) -> Segment {
    Segment::new(point(x0, y0), point(x1, y1), true, false, 0).unwrap()
}

fn wall(x0: i32, y0: i32, x1: i32, y1: i32) -> Segment {
    Segment::new(point(x0, y0), point(x1, y1), false, false, 0).unwrap()
}

fn glass(x0: i32, y0: i32, x1: i32, y1: i32, index: u32) -> Segment {
    Segment::new(point(x0, y0), point(x1, y1), false, true, index).unwrap()
}

#[test]
fn single_mirror_sends_the_ray_back() {
    let scene = Scene::new(vec![mirror(5_000_000, -1_000_000, 5_000_000, 1_000_000)]);
    let config = TraceConfig::default();
    let path = trace(&scene, point(0, 0), vector(ONE, 0), &config).unwrap();
    assert_eq!(path.termination, Termination::Exited);
    assert_eq!(path.vertices.len(), 2);
    assert_eq!(
        path.vertices[0],
        PathVertex { point: point(0, 0), incoming: vector(ONE, 0), outgoing: Some(vector(ONE, 0)) }
    );
    assert_eq!(
        path.vertices[1],
        PathVertex {
            point: point(5_000_000, 0),
            incoming: vector(ONE, 0),
            outgoing: Some(vector(-ONE, 0)),
        }
    );
}

#[test]
fn empty_scene_leaves_only_the_start() {
    let scene = Scene::new(Vec::new());
    let config = TraceConfig::default();
    let path = trace(&scene, point(3, -4), vector(0, 7), &config).unwrap();
    assert_eq!(path.termination, Termination::Exited);
    assert_eq!(
        path.vertices,
        vec![PathVertex {
            point: point(3, -4),
            incoming: vector(0, ONE),
            outgoing: Some(vector(0, ONE)),
        }]
    );
}

#[test]
fn mirrors_nearer_than_the_step_use_up_the_budget() {
    // two long mirrors 500 millionths apart, and a step of 1000
    let scene = Scene::new(vec![
        mirror(-1_000_000_000, 0, 1_000_000_000, 0),
        mirror(-1_000_000_000, 500, 1_000_000_000, 500),
    ]);
    let config = TraceConfig::new(16, 1000, 1_000_000).unwrap();
    let path = trace(&scene, point(0, 250), vector(960_000, 280_000), &config).unwrap();
    assert_eq!(path.termination, Termination::HopLimitReached);
    assert_eq!(path.vertices.len(), 17);
    for (i, vertex) in path.vertices.iter().enumerate().skip(1) {
        let up = i % 2 == 1;
        assert_eq!(vertex.point.y, if up { 500 } else { 0 });
        assert_eq!(vertex.incoming, vector(960_000, if up { 280_000 } else { -280_000 }));
        assert_eq!(vertex.outgoing, Some(vector(960_000, if up { -280_000 } else { 280_000 })));
    }
}

#[test]
fn budget_of_one_stops_at_the_first_bounce() {
    let scene = Scene::new(vec![
        mirror(5_000_000, -1_000_000, 5_000_000, 1_000_000),
        mirror(-5_000_000, -1_000_000, -5_000_000, 1_000_000),
    ]);
    let config = TraceConfig::new(1, 1, 1_000_000).unwrap();
    let path = trace(&scene, point(0, 0), vector(ONE, 0), &config).unwrap();
    assert_eq!(path.termination, Termination::HopLimitReached);
    assert_eq!(path.vertices.len(), 2);
    assert_eq!(path.vertices[1].point, point(5_000_000, 0));
    assert_eq!(path.vertices[1].outgoing, Some(vector(-ONE, 0)));
}

#[test]
fn facing_mirrors_bounce_until_the_budget_is_spent() {
    let scene = Scene::new(vec![
        mirror(5_000_000, -1_000_000, 5_000_000, 1_000_000),
        mirror(-5_000_000, -1_000_000, -5_000_000, 1_000_000),
    ]);
    let config = TraceConfig::new(5, 1, 1_000_000).unwrap();
    let path = trace(&scene, point(0, 0), vector(ONE, 0), &config).unwrap();
    assert_eq!(path.termination, Termination::HopLimitReached);
    let xs: Vec<i32> = path.vertices.iter().map(|v| v.point.x).collect();
    assert_eq!(xs, vec![0, 5_000_000, -5_000_000, 5_000_000, -5_000_000, 5_000_000]);
}

#[test]
fn wall_absorbs_the_ray() {
    let scene = Scene::new(vec![wall(2_000_000, -1_000_000, 2_000_000, 1_000_000)]);
    let config = TraceConfig::default();
    let path = trace(&scene, point(0, 0), vector(ONE, 0), &config).unwrap();
    assert_eq!(path.termination, Termination::Absorbed);
    assert_eq!(path.vertices.len(), 2);
    assert_eq!(
        path.vertices[1],
        PathVertex { point: point(2_000_000, 0), incoming: vector(ONE, 0), outgoing: None }
    );
}

#[test]
fn tracing_twice_gives_the_same_path() {
    let scene = Scene::new(vec![
        mirror(5_000_000, -3_000_000, 5_000_000, 3_000_000),
        glass(-4_000_000, -6_000_000, -4_000_000, 6_000_000, 1_500_000),
        wall(-9_000_000, -9_000_000, -9_000_000, 9_000_000),
    ]);
    let config = TraceConfig::default();
    let first = trace(&scene, point(0, 0), vector(3, 1), &config).unwrap();
    let second = trace(&scene, point(0, 0), vector(3, 1), &config).unwrap();
    assert_eq!(first, second);
    assert_eq!(first.termination, Termination::Absorbed);
    assert_eq!(first.vertices.len(), 4);
}

#[test]
fn glass_bends_the_ray_toward_the_normal() {
    // a horizontal pane at y = 0, met from above at sin = 0.6
    let scene = Scene::new(vec![glass(-10_000_000, 0, 10_000_000, 0, 1_500_000)]);
    let config = TraceConfig::default();
    let path = trace(&scene, point(0, 4_000_000), vector(600_000, -800_000), &config).unwrap();
    assert_eq!(path.termination, Termination::Exited);
    assert_eq!(path.vertices.len(), 2);
    assert_eq!(path.vertices[1].point, point(3_000_000, 0));
    assert_eq!(path.vertices[1].outgoing, Some(vector(400_000, -916_515)));
}

#[test]
fn glass_mirrors_a_ray_that_it_cannot_bend() {
    // from a medium of index 1.5 into one of index 1, near grazing
    let scene = Scene::new(vec![glass(-10_000_000, 0, 10_000_000, 0, 1_000_000)]);
    let config = TraceConfig::new(16, 1, 1_500_000).unwrap();
    let path = trace(&scene, point(0, 280_000), vector(960_000, -280_000), &config).unwrap();
    assert_eq!(path.termination, Termination::Exited);
    assert_eq!(path.vertices.len(), 2);
    assert_eq!(path.vertices[1].point, point(960_000, 0));
    assert_eq!(path.vertices[1].outgoing, Some(vector(960_000, 280_000)));
}

#[test]
fn step_that_leaves_the_plane_ends_the_path() {
    let scene = Scene::new(vec![mirror(i32::MIN, -5, i32::MIN, 5)]);
    let config = TraceConfig::new(16, -10, 1_000_000).unwrap();
    let path = trace(&scene, point(0, 0), vector(-ONE, 0), &config).unwrap();
    assert_eq!(path.termination, Termination::Exited);
    assert_eq!(path.vertices.len(), 2);
    assert_eq!(path.vertices[1].point, point(i32::MIN, 0));
    assert_eq!(path.vertices[1].outgoing, Some(vector(ONE, 0)));
}

#[test]
fn trace_of_a_zero_direction_fails() {
    let scene = Scene::new(Vec::new());
    let config = TraceConfig::default();
    assert_eq!(
        trace(&scene, point(0, 0), vector(0, 0), &config),
        Err(GeometryError::DegenerateVector)
    );
}

#[test]
fn trace_ray_agrees_with_trace() {
    let scene = Scene::new(vec![mirror(5_000_000, -1_000_000, 5_000_000, 1_000_000)]);
    let config = TraceConfig::default();
    let ray = Ray::new(point(0, 0), vector(5, 0)).unwrap();
    assert_eq!(ray.direction, vector(ONE, 0));
    let path = trace_ray(&scene, ray, &config);
    assert_eq!(Ok(path), trace(&scene, point(0, 0), vector(ONE, 0), &config));
}

#[test]
fn configuration_is_checked() {
    assert_eq!(TraceConfig::new(0, 1, 1_000_000), Err(GeometryError::InvalidConfiguration));
    assert_eq!(TraceConfig::new(16, 1, 0), Err(GeometryError::InvalidConfiguration));
    assert_eq!(
        TraceConfig::new(3, 7, 1_330_000),
        Ok(TraceConfig { max_bounces: 3, epsilon: 7, ambient_index_of_refraction: 1_330_000 })
    );
    assert_eq!(
        TraceConfig::default(),
        TraceConfig { max_bounces: 16, epsilon: 1, ambient_index_of_refraction: 1_000_000 }
    );
}

#[test]
fn advance_steps_along_the_direction() {
    assert_eq!(advance(point(10, 20), vector(600_000, -800_000), 1000), Some(point(610, -780)));
    assert_eq!(advance(point(10, 20), vector(600_000, -800_000), 1), Some(point(10, 20)));
    assert_eq!(advance(point(10, 20), vector(600_000, -800_000), 2), Some(point(11, 19)));
    assert_eq!(advance(point(10, 20), vector(600_000, -800_000), -5), Some(point(7, 24)));
    assert_eq!(advance(point(10, 20), vector(0, ONE), 0), Some(point(10, 20)));
}

#[test]
fn advance_stops_at_the_edge_of_the_plane() {
    assert_eq!(advance(point(i32::MAX, 0), vector(ONE, 0), 1), None);
    assert_eq!(advance(point(i32::MAX - 1, 0), vector(ONE, 0), 1), Some(point(i32::MAX, 0)));
    assert_eq!(advance(point(0, i32::MIN), vector(0, -ONE), 1), None);
    assert_eq!(advance(point(0, 0), vector(0, ONE), i64::MAX), None);
    assert_eq!(advance(point(0, 0), vector(0, ONE), i64::MIN), None);
}

#[test]
fn ray_that_steps_over_a_near_mirror_leaves() {
    // head-on, the step of 1000 carries the ray past the mirror 500 behind it
    let scene = Scene::new(vec![
        mirror(600, -1_000_000, 600, 1_000_000),
        mirror(100, -1_000_000, 100, 1_000_000),
    ]);
    let config = TraceConfig::new(16, 1000, 1_000_000).unwrap();
    let path = trace(&scene, point(300, 0), vector(ONE, 0), &config).unwrap();
    assert_eq!(path.termination, Termination::Exited);
    assert_eq!(path.vertices.len(), 2);
    assert_eq!(path.vertices[1].point, point(600, 0));
}

#[test]
fn grazed_mirror_turns_the_ray_away() {
    let scene = Scene::new(vec![mirror(1_000_000, 0, 3_000_000, 1)]);
    let config = TraceConfig::default();
    let path = trace(&scene, point(0, 0), vector(ONE, 0), &config).unwrap();
    assert_eq!(path.termination, Termination::Exited);
    assert_eq!(path.vertices.len(), 2);
    assert_eq!(path.vertices[1].point, point(1_000_000, 0));
    assert_eq!(path.vertices[1].outgoing, Some(vector(ONE, 1)));
}

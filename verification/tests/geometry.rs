use illumiphysics::error::GeometryError;
use illumiphysics::fixed::{divide, divide_signed, sqrt_floor, UNIT};
use illumiphysics::intersect::{hit_segment, nearest_hit, segment_intersect};
use illumiphysics::ray::Ray;
use illumiphysics::segment::{Material, Scene, Segment};
use illumiphysics::vector::{Point2, Vector2};

fn pt(x: i32, y: i32) -> Point2 {
    Point2 { x, y }
}

fn vc(x: i64, y: i64) -> Vector2 {
    Vector2 { x, y }
}

fn seg(x0: i32, y0: i32, x1: i32, y1: i32) -> Segment {
    Segment::new(pt(x0, y0), pt(x1, y1), false, false, 0).unwrap()
}

#[test]
fn unit_is_a_million() {
    assert_eq!(UNIT, 1_000_000);
}

#[test]
fn division_rounds_toward_zero() {
    assert_eq!(divide(7, 2), 3);
    assert_eq!(divide(-7, 2), -3);
    assert_eq!(divide(-1, 2), 0);
    assert_eq!(divide(0, 5), 0);
    assert_eq!(divide_signed(7, -2), -3);
    assert_eq!(divide_signed(-7, -2), 3);
    assert_eq!(divide_signed(-7, 2), -3);
    assert_eq!(divide_signed(6, -3), -2);
}

#[test]
fn square_root_rounds_down() {
    assert_eq!(sqrt_floor(0), 0);
    assert_eq!(sqrt_floor(1), 1);
    assert_eq!(sqrt_floor(15), 3);
    assert_eq!(sqrt_floor(16), 4);
    assert_eq!(sqrt_floor(17), 4);
    assert_eq!(sqrt_floor(1_000_000_000_000), 1_000_000);
    assert_eq!(sqrt_floor(999_999_999_999), 999_999);
    assert_eq!(sqrt_floor(u128::MAX), u64::MAX);
}

#[test]
fn vector_algebra() {
    let a = vc(3, 4);
    let b = vc(-2, 5);
    assert_eq!(a.add(b), vc(1, 9));
    assert_eq!(a.subtract(b), vc(5, -1));
    assert_eq!(a.negate(), vc(-3, -4));
    assert_eq!(a.perpendicular(), vc(-4, 3));
    assert_eq!(a.dot(b), 14);
    assert_eq!(a.perp_dot(b), 23);
    assert_eq!(b.perp_dot(a), -23);
    assert_eq!(a.norm_sq(), 25);
    assert_eq!(a.length(), 5);
    assert_eq!(vc(1, 1).length(), 1);
    assert_eq!(vc(i64::MIN, i64::MIN).length(), 13_043_817_825_332_782_212);
}

#[test]
fn scaling_is_fixed_point() {
    assert_eq!(vc(3_000_000, -4_000_000).scale(500_000), vc(1_500_000, -2_000_000));
    assert_eq!(vc(3, -3).scale(500_000), vc(1, -1));
    assert_eq!(vc(1, -1).scale(999_999), vc(0, 0));
    assert_eq!(vc(7, 9).scale(-2_000_000), vc(-14, -18));
}

#[test]
fn points_and_displacements() {
    assert_eq!(pt(5, 7).subtract(pt(2, 10)), vc(3, -3));
    assert_eq!(pt(i32::MAX, i32::MIN).subtract(pt(i32::MIN, i32::MAX)), vc(4_294_967_295, -4_294_967_295));
    assert_eq!(pt(5, 7).displace(vc(-6, 1)), Some(pt(-1, 8)));
    assert_eq!(pt(i32::MAX, 0).displace(vc(1, 0)), None);
    assert_eq!(pt(0, i32::MIN).displace(vc(0, -1)), None);
    assert_eq!(pt(0, 0).displace(vc(i64::MAX, 0)), None);
}

#[test]
fn normalize_gives_unit_vectors() {
    assert_eq!(vc(3, 4).normalize(), Ok(vc(600_000, 800_000)));
    assert_eq!(vc(-3, 4).normalize(), Ok(vc(-600_000, 800_000)));
    assert_eq!(vc(0, -9).normalize(), Ok(vc(0, -1_000_000)));
    assert_eq!(vc(1, 1).normalize(), Ok(vc(707_107, 707_107)));
    assert_eq!(vc(5_000_000, 5_000_000).normalize(), Ok(vc(707_106, 707_106)));
    assert!(vc(707_106, 707_106).is_unit());
    assert!(vc(707_107, 707_107).is_unit());
}

#[test]
fn normalize_leaves_unit_vectors_alone() {
    assert_eq!(vc(1_000_000, 0).normalize(), Ok(vc(1_000_000, 0)));
    assert_eq!(vc(1_000_001, 0).normalize(), Ok(vc(1_000_001, 0)));
    assert_eq!(vc(999_998, 0).normalize(), Ok(vc(999_998, 0)));
    assert_eq!(vc(999_997, 0).normalize(), Ok(vc(1_000_000, 0)));
    assert_eq!(vc(1_000_003, 0).normalize(), Ok(vc(1_000_000, 0)));
    assert!(vc(999_998, 0).is_unit());
    assert!(!vc(999_997, 0).is_unit());
    assert!(vc(1_000_002, 0).is_unit());
    assert!(!vc(1_000_003, 0).is_unit());
}

#[test]
fn normalize_of_long_vectors() {
    assert_eq!(vc(i64::MAX, 0).normalize(), Ok(vc(1_000_000, 0)));
    assert_eq!(vc(i64::MIN, i64::MIN).normalize(), Ok(vc(-707_106, -707_106)));
    assert_eq!(
        vc(30_000_000_000_000, -40_000_000_000_000).normalize(),
        Ok(vc(600_000, -800_000))
    );
    assert_eq!(vc(10_000_000_000_000, 0).normalize(), Ok(vc(1_000_000, 0)));
    assert_eq!(vc(10_000_000_000_001, 0).normalize(), Ok(vc(1_000_000, 0)));
}

#[test]
fn normalize_of_zero_fails() {
    assert_eq!(vc(0, 0).normalize(), Err(GeometryError::DegenerateVector));
    assert_eq!(Ray::new(pt(1, 2), vc(0, 0)), Err(GeometryError::DegenerateVector));
}

#[test]
fn ray_normalizes_its_direction() {
    let ray = Ray::new(pt(1, 2), vc(0, -3)).unwrap();
    assert_eq!(ray.origin, pt(1, 2));
    assert_eq!(ray.direction, vc(0, -1_000_000));
}

#[test]
fn reflect_in_axis_mirrors() {
    let d = vc(600_000, 800_000);
    assert_eq!(d.reflect(vc(0, 1_000_000)), vc(600_000, -800_000));
    assert_eq!(d.reflect(vc(0, -1_000_000)), vc(600_000, -800_000));
    assert_eq!(d.reflect(vc(1_000_000, 0)), vc(-600_000, 800_000));
    // the length of the normal does not matter
    assert_eq!(d.reflect(vc(0, 3)), vc(600_000, -800_000));
    assert_eq!(vc(1_000_000, 0).reflect(vc(1, 1)), vc(0, -1_000_000));
}

#[test]
fn reflecting_twice_gives_the_vector_back() {
    let d = vc(600_000, 800_000);
    let n = vc(0, 1_000_000);
    assert_eq!(d.reflect(n).reflect(n), d);
    let d = vc(960_000, -280_000);
    let n = vc(707_106, 707_106);
    let twice = d.reflect(n).reflect(n);
    assert!((twice.x - d.x).abs() <= 4 && (twice.y - d.y).abs() <= 4);
    let d = vc(123_456, -992_350);
    let n = vc(-316_227, 948_683);
    let twice = d.reflect(n).reflect(n);
    assert!((twice.x - d.x).abs() <= 4 && (twice.y - d.y).abs() <= 4);
}

#[test]
fn segment_construction() {
    let s = Segment::new(pt(0, 0), pt(1, 0), true, false, 0).unwrap();
    assert_eq!(s.material, Material::Reflective);
    assert!(s.is_reflective() && !s.is_refractive());
    assert_eq!(s.index_of_refraction(), None);
    assert_eq!(s.span(), vc(1, 0));
    let s = Segment::new(pt(0, 0), pt(0, -1), false, true, 1_500_000).unwrap();
    assert_eq!(s.material, Material::Refractive { index_of_refraction: 1_500_000 });
    assert!(!s.is_reflective() && s.is_refractive());
    assert_eq!(s.index_of_refraction(), Some(1_500_000));
    let s = Segment::new(pt(0, 0), pt(0, -1), false, false, 1_500_000).unwrap();
    assert_eq!(s.material, Material::Absorptive);
    assert_eq!((s.start, s.end), (pt(0, 0), pt(0, -1)));
}

#[test]
fn segment_construction_fails() {
    assert_eq!(Segment::new(pt(2, 3), pt(2, 3), true, false, 0), Err(GeometryError::InvalidSegment));
    assert_eq!(
        Segment::new(pt(0, 0), pt(1, 1), true, true, 1_500_000),
        Err(GeometryError::InvalidSegment)
    );
    assert_eq!(
        Segment::new(pt(0, 0), pt(0, 0), false, true, 0),
        Err(GeometryError::InvalidSegment)
    );
    assert_eq!(
        Segment::new(pt(0, 0), pt(1, 1), false, true, 0),
        Err(GeometryError::InvalidConfiguration)
    );
}

#[test]
fn scene_keeps_its_segments_in_order() {
    let scene = Scene::new(vec![seg(0, 0, 1, 0), seg(0, 0, 0, 1)]);
    assert_eq!(scene.len(), 2);
    assert_eq!(scene.segments[1], seg(0, 0, 0, 1));
    assert_eq!(Scene::new(Vec::new()).len(), 0);
}

#[test]
fn crossing_segments_meet() {
    let a = seg(0, 0, 2_000_000, 2_000_000);
    let b = seg(0, 2_000_000, 2_000_000, 0);
    assert_eq!(segment_intersect(&a, &b), Some(pt(1_000_000, 1_000_000)));
    assert_eq!(segment_intersect(&b, &a), Some(pt(1_000_000, 1_000_000)));
    let a = seg(0, 0, 4, 0);
    let b = seg(1, -3, 1, 5);
    assert_eq!(segment_intersect(&a, &b), Some(pt(1, 0)));
    assert_eq!(segment_intersect(&b, &a), Some(pt(1, 0)));
}

#[test]
fn meeting_point_is_rounded_toward_zero() {
    // the lines cross at (1/3, 1/3) and at (-1/3, -1/3)
    let a = seg(0, 0, 1, 1);
    let b = seg(1, 0, 0, 1);
    assert_eq!(segment_intersect(&a, &b), Some(pt(0, 0)));
    let a = seg(-2, -2, 5, 5);
    let b = seg(-1, 1, 1, -3);
    assert_eq!(segment_intersect(&a, &b), Some(pt(0, 0)));
    assert_eq!(segment_intersect(&b, &a), Some(pt(0, 0)));
    let a = seg(0, 0, 10, 3);
    let b = seg(7, -10, 7, 10);
    assert_eq!(segment_intersect(&a, &b), Some(pt(7, 2)));
    assert_eq!(segment_intersect(&b, &a), Some(pt(7, 2)));
}

#[test]
fn endpoints_count() {
    let a = seg(0, 0, 4, 0);
    assert_eq!(segment_intersect(&a, &seg(4, 0, 4, 9)), Some(pt(4, 0)));
    assert_eq!(segment_intersect(&a, &seg(0, -5, 0, 0)), Some(pt(0, 0)));
    assert_eq!(segment_intersect(&a, &seg(2, 7, 2, 0)), Some(pt(2, 0)));
}

#[test]
fn segments_that_miss_do_not_meet() {
    let a = seg(0, 0, 4, 0);
    assert_eq!(segment_intersect(&a, &seg(5, -1, 5, 1)), None);
    assert_eq!(segment_intersect(&a, &seg(2, 1, 2, 9)), None);
    assert_eq!(segment_intersect(&seg(5, -1, 5, 1), &a), None);
}

#[test]
fn parallel_segments_do_not_meet() {
    let a = seg(0, 0, 4, 4);
    assert_eq!(segment_intersect(&a, &a), None);
    assert_eq!(segment_intersect(&a, &seg(4, 4, 0, 0)), None);
    assert_eq!(segment_intersect(&a, &seg(1, 1, 3, 3)), None);
    assert_eq!(segment_intersect(&a, &seg(2, 2, 9, 9)), None);
    assert_eq!(segment_intersect(&a, &seg(0, 1, 4, 5)), None);
    assert_eq!(segment_intersect(&a, &seg(1, 0, 3, 2)), None);
}

#[test]
fn segments_at_the_edge_of_the_plane() {
    let a = seg(i32::MIN, i32::MIN, i32::MAX, i32::MAX);
    let b = seg(i32::MIN, i32::MAX, i32::MAX, i32::MIN);
    assert_eq!(segment_intersect(&a, &b), Some(pt(0, 0)));
    assert_eq!(segment_intersect(&b, &a), Some(pt(0, 0)));
}

#[test]
fn ray_meets_a_segment() {
    let ray = Ray::new(pt(0, 0), vc(1, 0)).unwrap();
    let wall = seg(5_000_000, -1_000_000, 5_000_000, 1_000_000);
    let hit = hit_segment(&ray, &wall).unwrap();
    assert_eq!(hit.point, pt(5_000_000, 0));
    assert_eq!(hit.distance, 5_000_000);
    assert_eq!(hit.segment, wall);
    assert_eq!(hit.normal, vc(-1_000_000, 0));
    // from the other side the normal is turned
    let ray = Ray::new(pt(9_000_000, 500_000), vc(-1, 0)).unwrap();
    let hit = hit_segment(&ray, &wall).unwrap();
    assert_eq!(hit.point, pt(5_000_000, 500_000));
    assert_eq!(hit.distance, 4_000_000);
    assert_eq!(hit.normal, vc(1_000_000, 0));
}

#[test]
fn ray_meets_a_slanted_segment() {
    let ray = Ray::new(pt(0, 0), vc(3, 4)).unwrap();
    let wall = seg(0, 8_000_000, 12_000_000, 8_000_000);
    let hit = hit_segment(&ray, &wall).unwrap();
    assert_eq!(hit.point, pt(6_000_000, 8_000_000));
    assert_eq!(hit.distance, 10_000_000);
    assert_eq!(hit.normal, vc(0, -1_000_000));
    let slope = seg(2_000_000, 0, 0, 2_000_000);
    let ray = Ray::new(pt(0, 0), vc(1, 1)).unwrap();
    let hit = hit_segment(&ray, &slope).unwrap();
    assert_eq!(hit.point, pt(1_000_000, 1_000_000));
    assert_eq!(hit.distance, 1_414_213);
    assert_eq!(hit.normal, vc(-707_106, -707_106));
}

#[test]
fn ray_misses() {
    let wall = seg(5_000_000, -1_000_000, 5_000_000, 1_000_000);
    // behind the ray
    assert_eq!(hit_segment(&Ray::new(pt(0, 0), vc(-1, 0)).unwrap(), &wall), None);
    // beside the segment
    assert_eq!(hit_segment(&Ray::new(pt(0, 2_000_000), vc(1, 0)).unwrap(), &wall), None);
    // parallel, and along the segment
    assert_eq!(hit_segment(&Ray::new(pt(0, 0), vc(0, 1)).unwrap(), &wall), None);
    assert_eq!(hit_segment(&Ray::new(pt(5_000_000, -2_000_000), vc(0, 1)).unwrap(), &wall), None);
    // from a point of the segment
    assert_eq!(hit_segment(&Ray::new(pt(5_000_000, 0), vc(1, 0)).unwrap(), &wall), None);
    assert_eq!(hit_segment(&Ray::new(pt(5_000_000, 0), vc(-1, 0)).unwrap(), &wall), None);
}

#[test]
fn ray_meets_the_ends_of_a_segment() {
    let wall = seg(5_000_000, -1_000_000, 5_000_000, 1_000_000);
    let hit = hit_segment(&Ray::new(pt(0, 1_000_000), vc(1, 0)).unwrap(), &wall).unwrap();
    assert_eq!(hit.point, pt(5_000_000, 1_000_000));
    let hit = hit_segment(&Ray::new(pt(0, -1_000_000), vc(1, 0)).unwrap(), &wall).unwrap();
    assert_eq!(hit.point, pt(5_000_000, -1_000_000));
    assert_eq!(hit_segment(&Ray::new(pt(0, 1_000_001), vc(1, 0)).unwrap(), &wall), None);
}

#[test]
fn distance_of_one_millionth_counts() {
    let wall = seg(1, -5, 1, 5);
    let hit = hit_segment(&Ray::new(pt(0, 0), vc(1, 0)).unwrap(), &wall).unwrap();
    assert_eq!(hit.distance, 1);
    assert_eq!(hit.point, pt(1, 0));
}

#[test]
fn nearest_of_several() {
    let far = seg(9_000_000, -1_000_000, 9_000_000, 1_000_000);
    let near = seg(4_000_000, -1_000_000, 4_000_000, 1_000_000);
    let behind = seg(-2_000_000, -1_000_000, -2_000_000, 1_000_000);
    let scene = Scene::new(vec![far, behind, near]);
    let ray = Ray::new(pt(0, 0), vc(1, 0)).unwrap();
    let hit = nearest_hit(&ray, &scene, None).unwrap();
    assert_eq!(hit.segment, near);
    assert_eq!(hit.distance, 4_000_000);
    let hit = nearest_hit(&ray, &scene, Some(&near)).unwrap();
    assert_eq!(hit.segment, far);
    assert_eq!(hit.point, pt(9_000_000, 0));
    let back = Ray::new(pt(0, 0), vc(-1, 0)).unwrap();
    assert_eq!(nearest_hit(&back, &scene, None).unwrap().segment, behind);
    assert_eq!(nearest_hit(&back, &scene, Some(&behind)), None);
    assert_eq!(nearest_hit(&ray, &Scene::new(Vec::new()), None), None);
}

#[test]
fn earlier_segment_wins_a_tie() {
    let first = Segment::new(pt(3_000_000, -1_000_000), pt(3_000_000, 1_000_000), true, false, 0)
        .unwrap();
    let second = Segment::new(pt(3_000_000, -2_000_000), pt(3_000_000, 2_000_000), false, false, 0)
        .unwrap();
    let ray = Ray::new(pt(0, 0), vc(1, 0)).unwrap();
    let hit = nearest_hit(&ray, &Scene::new(vec![first, second]), None).unwrap();
    assert_eq!(hit.segment, first);
    let hit = nearest_hit(&ray, &Scene::new(vec![second, first]), None).unwrap();
    assert_eq!(hit.segment, second);
    let hit = nearest_hit(&ray, &Scene::new(vec![second, first]), Some(&second)).unwrap();
    assert_eq!(hit.segment, first);
}

#[test]
fn normal_of_a_grazed_segment_still_faces_the_ray() {
    // the segment rises by one millionth over two units
    let ray = Ray::new(pt(0, 0), vc(1, 0)).unwrap();
    let slope = Segment::new(pt(1_000_000, 0), pt(3_000_000, 1), true, false, 0).unwrap();
    let hit = hit_segment(&ray, &slope).unwrap();
    assert_eq!(hit.point, pt(1_000_000, 0));
    assert_eq!(hit.distance, 1_000_000);
    assert_eq!(hit.normal, vc(-1, 1_000_000));
    assert!(hit.normal.is_unit());
    assert!(hit.normal.dot(ray.direction) < 0);
    // and from above, coming back
    let ray = Ray::new(pt(4_000_000, 1), vc(-1, 0)).unwrap();
    let hit = hit_segment(&ray, &slope).unwrap();
    assert_eq!(hit.point, pt(3_000_000, 1));
    assert_eq!(hit.normal, vc(1, -1_000_000));
    assert!(hit.normal.dot(ray.direction) < 0);
}

#[test]
fn normals_face_the_ray_from_every_side() {
    let walls = [
        seg(5_000_000, -1_000_000, 5_000_000, 1_000_000),
        seg(2_000_000, 0, 0, 2_000_000),
        seg(-3_000_000, -3, 3_000_000, 4),
        seg(1, -2_000_000_000, -2, 2_000_000_000),
    ];
    let rays = [
        Ray::new(pt(-7_000_000, -1_000), vc(1, 0)).unwrap(),
        Ray::new(pt(9_000_000, 9_000_000), vc(-1, -1)).unwrap(),
        Ray::new(pt(100, -8_000_000), vc(0, 1)).unwrap(),
        Ray::new(pt(-6_000_000, 7), vc(1_000_000, -1)).unwrap(),
    ];
    let mut hits = 0;
    for wall in &walls {
        for ray in &rays {
            if let Some(hit) = hit_segment(ray, wall) {
                hits += 1;
                assert!(hit.normal.is_unit());
                assert!(hit.normal.dot(ray.direction) < 0);
            }
        }
    }
    assert!(hits >= 6);
}

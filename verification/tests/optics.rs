use illumiphysics::optics::{reflect_ray, refract_ray, respond};
use illumiphysics::segment::Material;
use illumiphysics::vector::Vector2;

fn vc(x: i64, y: i64) -> Vector2 {
    Vector2 { x, y }
}

const AIR: u32 = 1_000_000;
const GLASS: u32 = 1_500_000;

#[test]
fn mirror_turns_the_normal_component() {
    assert_eq!(reflect_ray(vc(1_000_000, 0), vc(-1_000_000, 0)), vc(-1_000_000, 0));
    assert_eq!(reflect_ray(vc(600_000, -800_000), vc(0, 1_000_000)), vc(600_000, 800_000));
    assert_eq!(reflect_ray(vc(0, -1_000_000), vc(707_106, 707_106)), vc(1_000_000, 0));
}

#[test]
fn mirror_twice_is_no_mirror() {
    let d = vc(600_000, -800_000);
    let n = vc(0, 1_000_000);
    assert_eq!(reflect_ray(reflect_ray(d, n), n), d);
    let d = vc(280_000, -960_000);
    let n = vc(-600_000, 800_000);
    assert_eq!(reflect_ray(reflect_ray(d, n), n), d);
}

#[test]
fn straight_on_goes_straight_through() {
    assert_eq!(refract_ray(vc(0, -1_000_000), vc(0, 1_000_000), AIR, GLASS), Some(vc(0, -1_000_000)));
    assert_eq!(refract_ray(vc(0, -1_000_000), vc(0, 1_000_000), GLASS, AIR), Some(vc(0, -1_000_000)));
}

#[test]
fn snell_into_glass() {
    // sin 0.6 outside, sin 0.4 inside
    assert_eq!(
        refract_ray(vc(600_000, -800_000), vc(0, 1_000_000), AIR, GLASS),
        Some(vc(400_000, -916_515))
    );
}

#[test]
fn snell_out_of_glass() {
    // sin 0.28 inside, sin 0.42 outside
    assert_eq!(
        refract_ray(vc(280_000, -960_000), vc(0, 1_000_000), GLASS, AIR),
        Some(vc(420_000, -907_524))
    );
}

#[test]
fn same_index_leaves_the_direction() {
    let n = vc(0, 1_000_000);
    for d in [vc(600_000, -800_000), vc(960_000, -280_000), vc(0, -1_000_000), vc(-707_106, -707_106)] {
        assert_eq!(refract_ray(d, n, AIR, AIR), Some(d));
        assert_eq!(refract_ray(d, n, GLASS, GLASS), Some(d));
        assert_eq!(refract_ray(d, n, 1, 1), Some(d));
        assert_eq!(refract_ray(d, n, u32::MAX, u32::MAX), Some(d));
    }
    let d = vc(-960_000, 280_000);
    let n = vc(707_106, 707_106);
    assert_eq!(refract_ray(d, n, 1_330_000, 1_330_000), Some(d));
}

#[test]
fn beyond_the_critical_angle_nothing_passes() {
    // the critical sine from glass to air is 2/3
    let n = vc(0, 1_000_000);
    assert_eq!(refract_ray(vc(960_000, -280_000), n, GLASS, AIR), None);
    assert_eq!(refract_ray(vc(800_000, -600_000), n, GLASS, AIR), None);
    assert_eq!(refract_ray(vc(999_999, -1_414), n, GLASS, AIR), None);
    // below it the ray passes, and into the denser medium it always does
    assert!(refract_ray(vc(600_000, -800_000), n, GLASS, AIR).is_some());
    assert!(refract_ray(vc(960_000, -280_000), n, AIR, GLASS).is_some());
}

#[test]
fn materials_respond() {
    let d = vc(600_000, -800_000);
    let n = vc(0, 1_000_000);
    assert_eq!(respond(d, n, Material::Absorptive, AIR), None);
    assert_eq!(respond(d, n, Material::Reflective, AIR), Some(vc(600_000, 800_000)));
    assert_eq!(
        respond(d, n, Material::Refractive { index_of_refraction: GLASS }, AIR),
        Some(vc(400_000, -916_515))
    );
    // total internal reflection falls back to the mirror
    assert_eq!(
        respond(vc(960_000, -280_000), n, Material::Refractive { index_of_refraction: AIR }, GLASS),
        Some(vc(960_000, 280_000))
    );
}

#[test]
fn mirror_twice_is_nearly_no_mirror_for_slanted_normals() {
    let normals = [vc(707_106, 707_106), vc(-316_227, 948_683), vc(999_999, 1_414), vc(3, -7)];
    let directions = [vc(600_000, -800_000), vc(123_456, -992_350), vc(-707_107, 707_107)];
    for n in normals {
        let n = n.normalize().unwrap();
        for d in directions {
            let back = reflect_ray(reflect_ray(d, n), n);
            assert!(back.is_unit());
            assert!((back.x - d.x).abs() <= 30 && (back.y - d.y).abs() <= 30);
        }
    }
}

#[test]
fn mirror_gives_unit_vectors() {
    let n = vc(3, 4).normalize().unwrap();
    let out = reflect_ray(vc(707_107, 707_107), n);
    assert!(out.is_unit());
    assert_eq!(out, vc(-480_832, -876_812));
}

#[test]
fn terms_that_cancel_let_the_ray_go_straight_on() {
    // straight on, but with indices half a million to one the two terms of
    // the bent direction cancel to the last digit
    assert_eq!(
        refract_ray(vc(-1_000_000, 0), vc(1_000_002, 0), 1_000_002, 2),
        Some(vc(-1_000_000, 0))
    );
    assert_eq!(
        respond(
            vc(-1_000_000, 0),
            vc(1_000_002, 0),
            Material::Refractive { index_of_refraction: 2 },
            1_000_002
        ),
        Some(vc(-1_000_000, 0))
    );
    // one step away from that nothing cancels
    assert_eq!(
        refract_ray(vc(-1_000_000, 0), vc(1_000_002, 0), 1_000_002, 3),
        Some(vc(-1_000_000, 0))
    );
}

#[test]
fn into_the_denser_medium_the_ray_always_passes() {
    let n = vc(0, 1_000_000);
    for d in [vc(999_999, -1_414), vc(960_000, -280_000), vc(1_000_000, 0), vc(0, -1_000_000)] {
        assert!(refract_ray(d, n, 1_000_000, 1_000_000).is_some());
        assert!(refract_ray(d, n, 1_000_000, 1_500_000).is_some());
        assert!(refract_ray(d, n, 1, u32::MAX).is_some());
    }
}

#[test]
fn sines_are_as_the_indices() {
    // n2 (t x n) is n1 (d x n), up to the rounding of t
    let n = vc(0, 1_000_000);
    let cases = [
        (vc(600_000, -800_000), 1_000_000u32, 1_500_000u32),
        (vc(280_000, -960_000), 1_500_000, 1_000_000),
        (vc(-707_107, -707_107), 1_000_000, 1_330_000),
        (vc(960_000, -280_000), 1_000_000, 2_400_000),
    ];
    for (d, n1, n2) in cases {
        let t = refract_ray(d, n, n1, n2).unwrap();
        assert!(t.is_unit());
        assert!(t.dot(n) <= 0);
        let gap = n2 as i128 * t.perp_dot(n) - n1 as i128 * d.perp_dot(n);
        assert!(gap.abs() <= 8 * n2 as i128 * 1_000_000, "{gap}");
    }
}

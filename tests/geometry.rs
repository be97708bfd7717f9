use ray_tracer::aabb::AxisAlignedBoundingBox;
use ray_tracer::hittable::{closest_hit, first_root_within};
use ray_tracer::interval::Interval;
use ray_tracer::point::KeyPoint;
use ray_tracer::scope_timer::ScopeTimer;

/// The order key of a double: integers that order as the doubles do.
fn key(x: f64) -> i64 {
    let bits = x.to_bits() as i64;
    bits ^ ((((bits >> 63) as u64) >> 1) as i64)
}

#[test]
fn keys_order_like_doubles() {
    let xs = [f64::NEG_INFINITY, -1.0e300, -2.5, -1.0e-300, 0.0, 1.0e-300, 0.001, 1.0, 3.0, f64::INFINITY];
    for w in xs.windows(2) {
        assert!(key(w[0]) < key(w[1]));
    }
}

#[test]
fn interval_new_keeps_bounds() {
    let i = Interval::new(-3, 8);
    assert_eq!(i.min, -3);
    assert_eq!(i.max, 8);
}

#[test]
fn interval_surrounds_is_strict() {
    let i = Interval::new(key(0.001), key(f64::INFINITY));
    assert!(!i.surrounds(key(0.001)));
    assert!(i.surrounds(key(0.5)));
    assert!(!i.surrounds(key(0.0)));
    assert!(!i.surrounds(key(f64::INFINITY)));
}

#[test]
fn interval_contains_includes_ends() {
    let i = Interval::new(2, 5);
    assert!(i.contains(2));
    assert!(i.contains(5));
    assert!(!i.contains(1));
    assert!(!i.contains(6));
}

#[test]
fn interval_clamp_values() {
    let i = Interval::new(0, 999);
    assert_eq!(i.clamp(-4), 0);
    assert_eq!(i.clamp(500), 500);
    assert_eq!(i.clamp(1000), 999);
}

#[test]
fn interval_merge_is_union_hull() {
    let m = Interval::merge(Interval::new(1, 4), Interval::new(-2, 3));
    assert_eq!(m, Interval::new(-2, 4));
    let far = Interval::merge(Interval::new(10, 12), Interval::new(1, 2));
    assert_eq!(far, Interval::new(1, 12));
}

#[test]
fn from_points_sorts_each_axis() {
    let a = KeyPoint::new(key(1.0), key(-2.0), key(3.0));
    let b = KeyPoint::new(key(-1.0), key(2.0), key(0.5));
    let bx = AxisAlignedBoundingBox::from_points(&a, &b);
    assert_eq!(bx.x, Interval::new(key(-1.0), key(1.0)));
    assert_eq!(bx.y, Interval::new(key(-2.0), key(2.0)));
    assert_eq!(bx.z, Interval::new(key(0.5), key(3.0)));
}

#[test]
fn from_points_ignores_corner_order() {
    let a = KeyPoint::new(5, -7, 0);
    let b = KeyPoint::new(-5, 9, 0);
    assert_eq!(
        AxisAlignedBoundingBox::from_points(&a, &b),
        AxisAlignedBoundingBox::from_points(&b, &a)
    );
}

#[test]
fn zero_radius_box_is_a_point() {
    let p = KeyPoint::new(3, 4, 5);
    let bx = AxisAlignedBoundingBox::from_points(&p, &p);
    assert_eq!(bx.x, Interval::new(3, 3));
    assert_eq!(bx.y, Interval::new(4, 4));
    assert_eq!(bx.z, Interval::new(5, 5));
}

#[test]
fn merge_boxes_holds_both_and_no_more() {
    let a = AxisAlignedBoundingBox::from_points(&KeyPoint::new(0, 0, 0), &KeyPoint::new(2, 2, 2));
    let b = AxisAlignedBoundingBox::from_points(&KeyPoint::new(5, -1, 1), &KeyPoint::new(6, 1, 3));
    let m = AxisAlignedBoundingBox::merge_boxes(&a, &b);
    assert_eq!(m.x, Interval::new(0, 6));
    assert_eq!(m.y, Interval::new(-1, 2));
    assert_eq!(m.z, Interval::new(0, 3));
    for p in [(0, 0, 0), (2, 2, 2), (5, -1, 1), (6, 1, 3)] {
        assert!(m.x.contains(p.0) && m.y.contains(p.1) && m.z.contains(p.2));
    }
    assert!(!m.x.contains(7));
    assert!(!m.y.contains(-2));
}

#[test]
fn axis_interval_picks_axis() {
    let bx = AxisAlignedBoundingBox::new(Interval::new(0, 1), Interval::new(2, 3), Interval::new(4, 5));
    assert_eq!(bx.axis_interval(0), Interval::new(0, 1));
    assert_eq!(bx.axis_interval(1), Interval::new(2, 3));
    assert_eq!(bx.axis_interval(2), Interval::new(4, 5));
    assert_eq!(bx.axis_interval(7), Interval::new(0, 1));
}

#[test]
fn first_root_prefers_near_root() {
    let t = Interval::new(key(0.001), key(f64::INFINITY));
    assert_eq!(first_root_within(key(2.0), key(4.0), &t), Some(key(2.0)));
}

#[test]
fn first_root_falls_back_to_far_root() {
    let t = Interval::new(key(0.001), key(f64::INFINITY));
    assert_eq!(first_root_within(key(-1.0), key(1.0), &t), Some(key(1.0)));
}

#[test]
fn first_root_misses_behind_ray() {
    let t = Interval::new(key(0.001), key(f64::INFINITY));
    assert_eq!(first_root_within(key(-3.0), key(-1.0), &t), None);
}

#[test]
fn sphere_in_front_hits_at_distance_less_radius() {
    // Ray from (0,0,3) toward -z against a sphere of radius 1 at the origin:
    // the roots are 2 and 4, and the hit is at 3 - r = 2.
    let t = Interval::new(key(0.001), key(f64::INFINITY));
    assert_eq!(first_root_within(key(2.0), key(4.0), &t), Some(key(3.0 - 1.0)));
}

#[test]
fn closest_hit_picks_least_parameter() {
    let c = vec![Some((key(5.0), key(9.0))), Some((key(3.0), key(4.0))), None, Some((key(-2.0), key(3.5)))];
    let t = Interval::new(key(0.001), key(f64::INFINITY));
    assert_eq!(closest_hit(&c, t), Some((1, key(3.0))));
}

#[test]
fn closest_hit_keeps_first_on_tie() {
    let c = vec![None, Some((4, 8)), Some((4, 6))];
    assert_eq!(closest_hit(&c, Interval::new(0, 100)), Some((1, 4)));
}

#[test]
fn closest_hit_none_when_all_miss() {
    let c = vec![None, Some((-5, -1)), Some((200, 300))];
    assert_eq!(closest_hit(&c, Interval::new(0, 100)), None);
    let empty: Vec<Option<(i64, i64)>> = Vec::new();
    assert_eq!(closest_hit(&empty, Interval::new(0, 100)), None);
}

#[test]
fn closest_hit_respects_upper_bound() {
    let c = vec![Some((150, 160)), Some((-10, 90))];
    assert_eq!(closest_hit(&c, Interval::new(0, 100)), Some((1, 90)));
}

#[test]
fn scope_timer_keeps_name() {
    let t = ScopeTimer::new("Camera::render");
    assert_eq!(t.name(), "Camera::render");
    assert!(t.start() <= std::time::Instant::now());
}

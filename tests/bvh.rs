use ray_tracer::aabb::AxisAlignedBoundingBox;
use ray_tracer::bvh_node::{BvhChild, BvhItem, BvhNode};
use ray_tracer::interval::Interval;
use ray_tracer::point::KeyPoint;

fn cube(index: usize, x: i64, y: i64, z: i64) -> BvhItem {
    BvhItem::new(
        index,
        AxisAlignedBoundingBox::from_points(&KeyPoint::new(x - 1, y - 1, z - 1), &KeyPoint::new(x + 1, y + 1, z + 1)),
    )
}

fn leaves(c: &BvhChild, out: &mut Vec<usize>) {
    match c {
        BvhChild::Leaf(item) => out.push(item.index),
        BvhChild::Node(n) => {
            leaves(n.left(), out);
            leaves(n.right(), out);
        }
    }
}

fn holds(outer: &AxisAlignedBoundingBox, inner: &AxisAlignedBoundingBox) -> bool {
    outer.x.min <= inner.x.min
        && inner.x.max <= outer.x.max
        && outer.y.min <= inner.y.min
        && inner.y.max <= outer.y.max
        && outer.z.min <= inner.z.min
        && inner.z.max <= outer.z.max
}

/// Checks that every box is the merge of its children's, and returns the
/// number of leaves below.
fn check_boxes(n: &BvhNode) -> usize {
    let l = n.left().bounding_box();
    let r = n.right().bounding_box();
    assert_eq!(n.bounding_box(), AxisAlignedBoundingBox::merge_boxes(&l, &r));
    assert!(holds(&n.bounding_box(), &l) && holds(&n.bounding_box(), &r));
    let count = |c: &BvhChild| match c {
        BvhChild::Leaf(_) => 1,
        BvhChild::Node(m) => check_boxes(m),
    };
    count(n.left()) + count(n.right())
}

fn scene() -> Vec<BvhItem> {
    vec![
        cube(0, 10, 0, 0),
        cube(1, -4, 3, 8),
        cube(2, 0, -6, 2),
        cube(3, 7, 7, -7),
        cube(4, -9, 1, 1),
        cube(5, 2, 2, 2),
        cube(6, 5, -3, 9),
    ]
}

#[test]
fn single_surface_is_held_on_both_sides() {
    let mut v = vec![cube(3, 0, 0, 0)];
    let n = BvhNode::new(&mut v);
    assert!(matches!(n.left(), BvhChild::Leaf(i) if i.index == 3));
    assert!(matches!(n.right(), BvhChild::Leaf(i) if i.index == 3));
    assert_eq!(n.bounding_box(), cube(3, 0, 0, 0).bbox);
}

#[test]
fn two_surfaces_become_the_two_children() {
    let mut v = vec![cube(0, 9, 0, 0), cube(1, -9, 0, 0)];
    let n = BvhNode::new(&mut v);
    assert!(matches!(n.left(), BvhChild::Leaf(i) if i.index == 0));
    assert!(matches!(n.right(), BvhChild::Leaf(i) if i.index == 1));
    assert_eq!(n.bounding_box().x, Interval::new(-10, 10));
}

#[test]
fn build_keeps_every_surface() {
    let mut v = scene();
    let n = BvhNode::new(&mut v);
    let mut got = Vec::new();
    leaves(&BvhChild::Node(Box::new(n)), &mut got);
    got.dedup();
    let mut sorted = got.clone();
    sorted.sort();
    assert_eq!(sorted, vec![0, 1, 2, 3, 4, 5, 6]);
    let mut order: Vec<usize> = v.iter().map(|i| i.index).collect();
    assert_eq!(got, order);
    order.sort();
    assert_eq!(order, vec![0, 1, 2, 3, 4, 5, 6]);
}

#[test]
fn root_box_is_hull_of_all_surfaces() {
    let mut v = scene();
    let n = BvhNode::new(&mut v);
    let b = n.bounding_box();
    assert_eq!(b.x, Interval::new(-10, 11));
    assert_eq!(b.y, Interval::new(-7, 8));
    assert_eq!(b.z, Interval::new(-8, 10));
    for item in scene() {
        assert!(holds(&b, &item.bbox));
    }
}

#[test]
fn every_node_box_merges_its_children() {
    let mut v = scene();
    let n = BvhNode::new(&mut v);
    assert!(check_boxes(&n) >= 7);
}

#[test]
fn rebuilding_gives_same_root_box_and_surfaces() {
    let mut a = scene();
    let mut b = scene();
    let first = BvhNode::new(&mut a);
    let second = BvhNode::new(&mut b);
    assert_eq!(first.bounding_box(), second.bounding_box());
    let mut la: Vec<usize> = a.iter().map(|i| i.index).collect();
    let mut lb: Vec<usize> = b.iter().map(|i| i.index).collect();
    la.sort();
    lb.sort();
    assert_eq!(la, lb);
}

#[test]
fn split_halves_are_ordered_on_some_axis() {
    let mut v = scene();
    let n = BvhNode::new(&mut v);
    let (l, r) = match (n.left(), n.right()) {
        (BvhChild::Node(l), BvhChild::Node(r)) => (l, r),
        _ => panic!("seven surfaces split into two subtrees"),
    };
    let mut li = Vec::new();
    let mut ri = Vec::new();
    leaves(l.left(), &mut li);
    leaves(l.right(), &mut li);
    leaves(r.left(), &mut ri);
    leaves(r.right(), &mut ri);
    li.dedup();
    assert_eq!(li.len(), 3);
    let by_index = |i: usize| scene()[i].bbox;
    let ordered_on = |axis: usize| {
        li.iter().all(|&a| ri.iter().all(|&b| by_index(a).axis_interval(axis).min <= by_index(b).axis_interval(axis).min))
    };
    assert!(ordered_on(0) || ordered_on(1) || ordered_on(2));
}

#[test]
fn many_equal_keys_still_build() {
    let mut v: Vec<BvhItem> = (0..20).map(|i| cube(i, 0, 0, 0)).collect();
    let n = BvhNode::new(&mut v);
    assert_eq!(n.bounding_box(), cube(0, 0, 0, 0).bbox);
    assert_eq!(v.len(), 20);
}

/// Crossings of the ray along the x axis through `y = 0, z = 0`, starting at
/// `x = -100`: a cube is met from its low face to its high face.
fn line_crossing(b: &AxisAlignedBoundingBox) -> Option<(i64, i64)> {
    if b.y.contains(0) && b.z.contains(0) {
        Some((b.x.min + 100, b.x.max + 100))
    } else {
        None
    }
}

fn line_box_test(b: AxisAlignedBoundingBox, t: Interval) -> bool {
    line_crossing(&b).is_some_and(|(near, far)| t.min.max(near) <= t.max.min(far))
}

fn line_scene() -> Vec<BvhItem> {
    vec![
        cube(0, 10, 0, 0),
        cube(1, -4, 0, 1),
        cube(2, 0, -6, 2),
        cube(3, 7, 0, -1),
        cube(4, -9, 1, 0),
        cube(5, 2, 5, 5),
        cube(6, 30, 0, 0),
        cube(7, -40, 0, 0),
    ]
}

#[test]
fn bvh_hit_agrees_with_collection() {
    let scene = line_scene();
    let crossings: Vec<Option<(i64, i64)>> = scene.iter().map(|i| line_crossing(&i.bbox)).collect();
    let mut items = scene.clone();
    let root = BvhNode::new(&mut items);
    let crossing = |i: usize| crossings[i];
    for (lo, hi) in [(0, 1000), (61, 1000), (95, 1000), (0, 95), (103, 109), (200, 300), (131, 1000)] {
        let t = Interval::new(lo, hi);
        let collection = ray_tracer::hittable::closest_hit(&crossings, t);
        let bvh = root.hit(t, &crossing, &line_box_test);
        assert_eq!(collection.map(|h| h.1), bvh.map(|h| h.1), "range {lo}..{hi}");
        assert_eq!(collection.is_some(), bvh.is_some());
    }
}

#[test]
fn bvh_hit_finds_nearest_on_line() {
    let scene = line_scene();
    let crossings: Vec<Option<(i64, i64)>> = scene.iter().map(|i| line_crossing(&i.bbox)).collect();
    let mut items = scene.clone();
    let root = BvhNode::new(&mut items);
    let crossing = |i: usize| crossings[i];
    // Surface 7 spans x in [-41, -39]: met at parameter 59.
    assert_eq!(root.hit(Interval::new(0, 1000), &crossing, &line_box_test), Some((7, 59)));
    // From inside it, its far face at 61 is reported.
    assert_eq!(root.hit(Interval::new(60, 1000), &crossing, &line_box_test), Some((7, 61)));
    // Past it, surface 4 ([-10, -8]) is next at 90.
    assert_eq!(root.hit(Interval::new(62, 1000), &crossing, &line_box_test), Some((4, 90)));
    // Starting inside surface 4, its far face at 92 is reported.
    assert_eq!(root.hit(Interval::new(91, 1000), &crossing, &line_box_test), Some((4, 92)));
    assert_eq!(root.hit(Interval::new(200, 1000), &crossing, &line_box_test), None);
}

#[test]
fn bvh_hit_misses_when_root_box_is_missed() {
    let mut items = line_scene();
    let root = BvhNode::new(&mut items);
    let crossing = |_: usize| Some((5, 6));
    let never = |_: AxisAlignedBoundingBox, _: Interval| false;
    assert_eq!(root.hit(Interval::new(0, 100), &crossing, &never), None);
}

#[test]
fn rebuilt_bvh_gives_same_outcomes() {
    let scene = line_scene();
    let crossings: Vec<Option<(i64, i64)>> = scene.iter().map(|i| line_crossing(&i.bbox)).collect();
    let crossing = |i: usize| crossings[i];
    let mut a = scene.clone();
    let mut b = scene.clone();
    let first = BvhNode::new(&mut a);
    let second = BvhNode::new(&mut b);
    for lo in 0..140 {
        let t = Interval::new(lo, 1000);
        let x = first.hit(t, &crossing, &line_box_test).map(|h| h.1);
        let y = second.hit(t, &crossing, &line_box_test).map(|h| h.1);
        assert_eq!(x, y, "from {lo}");
    }
}

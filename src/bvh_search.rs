use crate::aabb::AxisAlignedBoundingBox;
use crate::bvh_node::{BvhChild, BvhItem, BvhNode};
use crate::hittable::{crossing_within, first_root_within, is_closest, ordered};
use crate::interval::Interval;
use vstd::prelude::*;
use vstd::seq_lib::*;

verus! {

broadcast use group_to_multiset_ensures;

/// The search of the hierarchy below `c` for the ray within `ray_t`, where
/// `cross(i)` gives the crossings of surface `i` and `bx(b, t)` tells whether
/// the ray passes through box `b` within `t`. A node whose box is missed
/// yields none; otherwise the left side is searched first, and the right side
/// only for hits closer than the left's. The result is a surface index and the
/// parameter of its hit.
pub open spec fn search(
    c: BvhChild,
    ray_t: Interval,
    cross: spec_fn(usize) -> Option<(i64, i64)>,
    bx: spec_fn(AxisAlignedBoundingBox, Interval) -> bool,
) -> Option<(usize, i64)>
    decreases c,
{
    match c {
        BvhChild::Leaf(item) => match crossing_within(cross(item.index), ray_t) {
            Some(t) => Some((item.index, t)),
            None => None,
        },
        BvhChild::Node(n) => {
            if !bx(n.bbox, ray_t) {
                None
            } else {
                let l = search(n.left, ray_t, cross, bx);
                let end = match l {
                    Some((_, t)) => t,
                    None => ray_t.max,
                };
                let r = search(n.right, Interval { min: ray_t.min, max: end }, cross, bx);
                if r is Some {
                    r
                } else {
                    l
                }
            }
        },
    }
}

/// The crossings that the closure `f` reports for surface `i`.
pub open spec fn crossing_outcome<C: Fn(usize) -> Option<(i64, i64)>>(f: C, i: usize) -> Option<(i64, i64)> {
    choose|c: Option<(i64, i64)>| f.ensures((i,), c)
}

/// The answer that the closure `f` gives for box `b` within `t`.
pub open spec fn box_outcome<B: Fn(AxisAlignedBoundingBox, Interval) -> bool>(
    f: B,
    b: AxisAlignedBoundingBox,
    t: Interval,
) -> bool {
    choose|x: bool| f.ensures((b, t), x)
}

/// Both closures may be called on any argument and answer the same each time.
pub open spec fn probes_ok<C: Fn(usize) -> Option<(i64, i64)>, B: Fn(AxisAlignedBoundingBox, Interval) -> bool>(
    crossing: C,
    box_hit: B,
) -> bool {
    &&& forall|i: usize| crossing.requires((i,))
    &&& forall|i: usize, c1: Option<(i64, i64)>, c2: Option<(i64, i64)>|
        crossing.ensures((i,), c1) && crossing.ensures((i,), c2) ==> c1 == c2
    &&& forall|b: AxisAlignedBoundingBox, t: Interval| box_hit.requires((b, t))
    &&& forall|b: AxisAlignedBoundingBox, t: Interval, x1: bool, x2: bool|
        box_hit.ensures((b, t), x1) && box_hit.ensures((b, t), x2) ==> x1 == x2
}

fn hit_child<C: Fn(usize) -> Option<(i64, i64)>, B: Fn(AxisAlignedBoundingBox, Interval) -> bool>(
    c: &BvhChild,
    ray_t: Interval,
    crossing: &C,
    box_hit: &B,
) -> (r: Option<(usize, i64)>)
    requires
        probes_ok(*crossing, *box_hit),
    ensures
        r == search(
            *c,
            ray_t,
            |i: usize| crossing_outcome(*crossing, i),
            |b: AxisAlignedBoundingBox, t: Interval| box_outcome(*box_hit, b, t),
        ),
    decreases c,
{
    match c {
        BvhChild::Leaf(item) => {
            let cr = crossing(item.index);
            proof {
                assert(crossing_outcome(*crossing, item.index) == cr);
            }
            match cr {
                Some((near, far)) => match first_root_within(near, far, &ray_t) {
                    Some(t) => Some((item.index, t)),
                    None => None,
                },
                None => None,
            }
        },
        BvhChild::Node(n) => {
            let inside = box_hit(n.bbox, ray_t);
            proof {
                assert(box_outcome(*box_hit, n.bbox, ray_t) == inside);
            }
            if !inside {
                return None;
            }
            let l = hit_child(&n.left, ray_t, crossing, box_hit);
            let end = match l {
                Some((_, t)) => t,
                None => ray_t.max,
            };
            let r = hit_child(&n.right, Interval::new(ray_t.min, end), crossing, box_hit);
            if r.is_some() {
                r
            } else {
                l
            }
        },
    }
}

impl BvhNode {
    /// The closest hit of a ray within `ray_t` among the surfaces below this
    /// node, as a surface index and the parameter of its hit. `crossing(i)`
    /// gives the crossings of the ray with surface `i` (as for
    /// `first_root_within`), and `box_hit(b, t)` whether the ray passes through
    /// box `b` within `t`.
    pub fn hit<C: Fn(usize) -> Option<(i64, i64)>, B: Fn(AxisAlignedBoundingBox, Interval) -> bool>(
        &self,
        ray_t: Interval,
        crossing: &C,
        box_hit: &B,
    ) -> (r: Option<(usize, i64)>)
        requires
            probes_ok(*crossing, *box_hit),
        ensures
            r == search(
                BvhChild::Node(Box::new(*self)),
                ray_t,
                |i: usize| crossing_outcome(*crossing, i),
                |b: AxisAlignedBoundingBox, t: Interval| box_outcome(*box_hit, b, t),
            ),
    {
        let inside = box_hit(self.bbox, ray_t);
        proof {
            assert(box_outcome(*box_hit, self.bbox, ray_t) == inside);
        }
        if !inside {
            return None;
        }
        let l = hit_child(&self.left, ray_t, crossing, box_hit);
        let end = match l {
            Some((_, t)) => t,
            None => ray_t.max,
        };
        let r = hit_child(&self.right, Interval::new(ray_t.min, end), crossing, box_hit);
        if r.is_some() {
            r
        } else {
            l
        }
    }
}

/// The surfaces at the leaves below `c`, left to right.
pub open spec fn leaves(c: BvhChild) -> Seq<BvhItem>
    decreases c,
{
    match c {
        BvhChild::Leaf(item) => seq![item],
        BvhChild::Node(n) => leaves(n.left) + leaves(n.right),
    }
}

/// Every node's box test admits the ray wherever it meets a surface below
/// that node within the range asked.
pub open spec fn conservative(
    c: BvhChild,
    cross: spec_fn(usize) -> Option<(i64, i64)>,
    bx: spec_fn(AxisAlignedBoundingBox, Interval) -> bool,
) -> bool
    decreases c,
{
    match c {
        BvhChild::Leaf(_) => true,
        BvhChild::Node(n) => {
            &&& forall|t: Interval, j: int|
                0 <= j < leaves(c).len() && (crossing_within(cross((#[trigger] leaves(c)[j]).index), t) is Some)
                    ==> #[trigger] bx(n.bbox, t)
            &&& conservative(n.left, cross, bx)
            &&& conservative(n.right, cross, bx)
        },
    }
}

/// A crossing found within a range is found within a narrower one that still
/// holds it.
proof fn lemma_crossing_narrowed(c: Option<(i64, i64)>, lo: i64, hi: i64, end: i64, u: i64)
    requires
        crossing_within(c, Interval { min: lo, max: hi }) == Some(u),
        u < end <= hi,
    ensures
        crossing_within(c, Interval { min: lo, max: end }) == Some(u),
{
}

/// An ordered pair's crossing found within a range is the one found within a
/// wider range with the same lower end.
proof fn lemma_crossing_widened(c: Option<(i64, i64)>, lo: i64, end: i64, hi: i64, u: i64)
    requires
        ordered(c),
        crossing_within(c, Interval { min: lo, max: end }) == Some(u),
        end <= hi,
    ensures
        crossing_within(c, Interval { min: lo, max: hi }) == Some(u),
{
}

/// The search finds the nearest crossing within `ray_t` among the leaves, and
/// none only when no leaf has one.
pub proof fn lemma_search_nearest(
    c: BvhChild,
    ray_t: Interval,
    cross: spec_fn(usize) -> Option<(i64, i64)>,
    bx: spec_fn(AxisAlignedBoundingBox, Interval) -> bool,
)
    requires
        conservative(c, cross, bx),
        forall|j: int| 0 <= j < leaves(c).len() ==> ordered(cross(#[trigger] leaves(c)[j].index)),
    ensures
        search(c, ray_t, cross, bx) is None <==> forall|j: int|
            0 <= j < leaves(c).len() ==> crossing_within(
                cross(#[trigger] leaves(c)[j].index),
                ray_t,
            ) is None,
        search(c, ray_t, cross, bx) matches Some((k, t)) ==> {
            &&& exists|j: int| 0 <= j < leaves(c).len() && #[trigger] leaves(c)[j].index == k
            &&& crossing_within(cross(k), ray_t) == Some(t)
            &&& forall|j: int|
                0 <= j < leaves(c).len() ==> (crossing_within(
                    cross(#[trigger] leaves(c)[j].index),
                    ray_t,
                ) matches Some(u) ==> t <= u)
        },
    decreases c,
{
    match c {
        BvhChild::Leaf(item) => {
            assert(leaves(c)[0] == item);
        },
        BvhChild::Node(n) => {
            let lv = leaves(n.left);
            let rv = leaves(n.right);
            let all = leaves(c);
            assert(all == lv + rv);
            if !bx(n.bbox, ray_t) {
                assert forall|j: int| 0 <= j < all.len() implies crossing_within(
                    cross(#[trigger] all[j].index),
                    ray_t,
                ) is None by {
                    if crossing_within(cross(all[j].index), ray_t) is Some {
                        assert(bx(n.bbox, ray_t));
                    }
                }
            } else {
                assert forall|j: int| 0 <= j < lv.len() implies ordered(cross(#[trigger] lv[j].index)) by {
                assert(all[j] == lv[j]);
            }
            assert forall|j: int| 0 <= j < rv.len() implies ordered(cross(#[trigger] rv[j].index)) by {
                assert(all[lv.len() + j] == rv[j]);
            }
            lemma_search_nearest(n.left, ray_t, cross, bx);
                let l = search(n.left, ray_t, cross, bx);
                let end = match l {
                    Some((_, t)) => t,
                    None => ray_t.max,
                };
                let narrowed = Interval { min: ray_t.min, max: end };
                lemma_search_nearest(n.right, narrowed, cross, bx);
                let r = search(n.right, narrowed, cross, bx);
                assert(end <= ray_t.max);
                assert forall|j: int|
                    0 <= j < rv.len() && (crossing_within(cross(#[trigger] rv[j].index), ray_t) is Some)
                        && crossing_within(cross(rv[j].index), ray_t)->Some_0 < end implies crossing_within(
                    cross(rv[j].index),
                    narrowed,
                ) is Some by {
                    let u = crossing_within(cross(rv[j].index), ray_t)->Some_0;
                    lemma_crossing_narrowed(cross(rv[j].index), ray_t.min, ray_t.max, end, u);
                }
                if r is Some {
                    let (k2, t2) = r->Some_0;
                    let j2 = choose|j: int| 0 <= j < rv.len() && #[trigger] rv[j].index == k2;
                    assert(all[lv.len() + j2] == rv[j2]);
                    lemma_crossing_widened(cross(k2), ray_t.min, end, ray_t.max, t2);
                    assert forall|j: int| 0 <= j < all.len() implies (crossing_within(
                        cross(#[trigger] all[j].index),
                        ray_t,
                    ) matches Some(u) ==> t2 <= u) by {
                        if j < lv.len() {
                            assert(all[j] == lv[j]);
                        } else {
                            assert(all[j] == rv[j - lv.len()]);
                        }
                    }
                } else if l is Some {
                    let (k1, t1) = l->Some_0;
                    let j1 = choose|j: int| 0 <= j < lv.len() && #[trigger] lv[j].index == k1;
                    assert(all[j1].index == k1);
                    assert forall|j: int| 0 <= j < all.len() implies (crossing_within(
                        cross(#[trigger] all[j].index),
                        ray_t,
                    ) matches Some(u) ==> t1 <= u) by {
                        if j < lv.len() {
                            assert(all[j] == lv[j]);
                        } else {
                            assert(all[j] == rv[j - lv.len()]);
                        }
                    }
                } else {
                    assert(narrowed == ray_t);
                    assert forall|j: int| 0 <= j < all.len() implies crossing_within(
                        cross(#[trigger] all[j].index),
                        ray_t,
                    ) is None by {
                        if j < lv.len() {
                            assert(all[j] == lv[j]);
                        } else {
                            assert(all[j] == rv[j - lv.len()]);
                        }
                    }
                }
            }
        },
    }
}

/// Some item of `s` is surface `i`.
pub open spec fn has_index(s: Seq<BvhItem>, i: int) -> bool {
    exists|j: int| 0 <= j < s.len() && s[j].index == i
}

/// A tree built over `s` has at its leaves exactly the items of `s`.
pub proof fn lemma_covers_leaves(n: BvhNode, s: Seq<BvhItem>)
    requires
        n.covers(s),
    ensures
        forall|j: int|
            0 <= j < leaves(BvhChild::Node(Box::new(n))).len() ==> s.contains(
                #[trigger] leaves(BvhChild::Node(Box::new(n)))[j],
            ),
        forall|j: int| 0 <= j < s.len() ==> leaves(BvhChild::Node(Box::new(n))).contains(#[trigger] s[j]),
    decreases s.len(),
{
    let all = leaves(BvhChild::Node(Box::new(n)));
    let lv = leaves(n.left);
    let rv = leaves(n.right);
    assert(all == lv + rv);
    if s.len() == 1 {
        assert(lv == seq![s[0]] && rv == seq![s[0]]);
        assert(all[0] == s[0]);
    } else if s.len() == 2 {
        assert(lv == seq![s[0]] && rv == seq![s[1]]);
        assert(all[0] == s[0] && all[1] == s[1]);
    } else {
        let m = s.len() as int / 2;
        let sl = s.subrange(0, m);
        let sr = s.subrange(m, s.len() as int);
        match (n.left, n.right) {
            (BvhChild::Node(l), BvhChild::Node(r)) => {
                lemma_covers_leaves(*l, sl);
                lemma_covers_leaves(*r, sr);
                assert(BvhChild::Node(Box::new(*l)) == n.left);
                assert(BvhChild::Node(Box::new(*r)) == n.right);
                assert forall|j: int| 0 <= j < all.len() implies s.contains(#[trigger] all[j]) by {
                    if j < lv.len() {
                        assert(all[j] == lv[j]);
                        let k = choose|k: int| 0 <= k < sl.len() && sl[k] == lv[j];
                        assert(s[k] == sl[k]);
                    } else {
                        assert(all[j] == rv[j - lv.len()]);
                        let k = choose|k: int| 0 <= k < sr.len() && sr[k] == rv[j - lv.len()];
                        assert(s[m + k] == sr[k]);
                    }
                }
                assert forall|j: int| 0 <= j < s.len() implies all.contains(#[trigger] s[j]) by {
                    if j < m {
                        assert(sl[j] == s[j]);
                        let k = choose|k: int| 0 <= k < lv.len() && lv[k] == sl[j];
                        assert(all[k] == lv[k]);
                    } else {
                        assert(sr[j - m] == s[j]);
                        let k = choose|k: int| 0 <= k < rv.len() && rv[k] == sr[j - m];
                        assert(all[lv.len() + k] == rv[k]);
                    }
                }
            },
            _ => {},
        }
    }
}

/// The hierarchy and the linear collection agree. Over a tree built from the
/// surfaces numbered `0..crossings.len()`, where the box tests admit the ray
/// wherever it meets a surface below, the search finds a hit exactly when the
/// collection's closest hit does, and at the same parameter.
pub proof fn lemma_bvh_agrees_with_collection(
    root: BvhNode,
    order: Seq<BvhItem>,
    crossings: Seq<Option<(i64, i64)>>,
    ray_t: Interval,
    cross: spec_fn(usize) -> Option<(i64, i64)>,
    bx: spec_fn(AxisAlignedBoundingBox, Interval) -> bool,
    found: Option<(usize, i64)>,
)
    requires
        root.covers(order),
        forall|j: int| 0 <= j < order.len() ==> (#[trigger] order[j]).index < crossings.len(),
        forall|i: int| 0 <= i < crossings.len() ==> #[trigger] has_index(order, i),
        forall|i: usize| i < crossings.len() ==> #[trigger] cross(i) == crossings[i as int],
        forall|i: int| 0 <= i < crossings.len() ==> ordered(#[trigger] crossings[i]),
        conservative(BvhChild::Node(Box::new(root)), cross, bx),
        is_closest(crossings, ray_t, found),
    ensures
        search(BvhChild::Node(Box::new(root)), ray_t, cross, bx) is None <==> found is None,
        search(BvhChild::Node(Box::new(root)), ray_t, cross, bx) matches Some((_, t1)) ==> (
        found matches Some((_, t2)) && t1 == t2),
{
    let c = BvhChild::Node(Box::new(root));
    let all = leaves(c);
    lemma_covers_leaves(root, order);
    assert forall|j: int| 0 <= j < all.len() implies (#[trigger] all[j]).index < crossings.len()
        && cross(all[j].index) == crossings[all[j].index as int] by {
        let k = choose|k: int| 0 <= k < order.len() && order[k] == all[j];
    }
    lemma_search_nearest(c, ray_t, cross, bx);
    let s = search(c, ray_t, cross, bx);
    // every surface of the collection is a leaf
    assert forall|i: int| 0 <= i < crossings.len() implies #[trigger] has_index(all, i) by {
        assert(has_index(order, i));
        let j = choose|j: int| 0 <= j < order.len() && #[trigger] order[j].index == i;
        assert(all.contains(order[j]));
    }
    if s is None {
        assert forall|i: int| 0 <= i < crossings.len() implies crossing_within(
            #[trigger] crossings[i],
            ray_t,
        ) is None by {
            assert(has_index(all, i));
            let j = choose|j: int| 0 <= j < all.len() && (#[trigger] all[j]).index == i;
        }
    }
    if found is None {
        assert forall|j: int| 0 <= j < all.len() implies crossing_within(
            cross(#[trigger] all[j].index),
            ray_t,
        ) is None by {
            assert(crossing_within(crossings[all[j].index as int], ray_t) is None);
        }
    }
    if s is Some && found is Some {
        let (k1, t1) = s->Some_0;
        let (k2, t2) = found->Some_0;
        let j1 = choose|j: int| 0 <= j < all.len() && #[trigger] all[j].index == k1;
        assert(crossing_within(crossings[k1 as int], ray_t) == Some(t1));
        assert(has_index(all, k2 as int));
        let j2 = choose|j: int| 0 <= j < all.len() && (#[trigger] all[j]).index == k2 as int;
        assert(crossing_within(cross(all[j2].index), ray_t) == Some(t2));
    }
}

proof fn lemma_same_items_contains(s1: Seq<BvhItem>, s2: Seq<BvhItem>, x: BvhItem)
    requires
        s1.to_multiset() == s2.to_multiset(),
        s1.contains(x),
    ensures
        s2.contains(x),
{
    assert(s1.to_multiset().count(x) > 0);
}

/// Two builds over the same surfaces, whatever split axes were drawn, give the
/// same outcome for every ray: a hit in both or in neither, and at the same
/// parameter, where the box tests admit the ray wherever it meets a surface
/// below.
pub proof fn lemma_rebuild_same_outcome(
    items: Seq<BvhItem>,
    first: BvhNode,
    first_order: Seq<BvhItem>,
    second: BvhNode,
    second_order: Seq<BvhItem>,
    ray_t: Interval,
    cross: spec_fn(usize) -> Option<(i64, i64)>,
    bx: spec_fn(AxisAlignedBoundingBox, Interval) -> bool,
)
    requires
        first_order.to_multiset() == items.to_multiset(),
        second_order.to_multiset() == items.to_multiset(),
        first.covers(first_order),
        second.covers(second_order),
        forall|j: int| 0 <= j < items.len() ==> ordered(cross(#[trigger] items[j].index)),
        conservative(BvhChild::Node(Box::new(first)), cross, bx),
        conservative(BvhChild::Node(Box::new(second)), cross, bx),
    ensures
        search(BvhChild::Node(Box::new(first)), ray_t, cross, bx) is None <==> search(
            BvhChild::Node(Box::new(second)),
            ray_t,
            cross,
            bx,
        ) is None,
        search(BvhChild::Node(Box::new(first)), ray_t, cross, bx) matches Some((_, t1)) ==> (search(
            BvhChild::Node(Box::new(second)),
            ray_t,
            cross,
            bx,
        ) matches Some((_, t2)) && t1 == t2),
{
    let c1 = BvhChild::Node(Box::new(first));
    let c2 = BvhChild::Node(Box::new(second));
    let l1 = leaves(c1);
    let l2 = leaves(c2);
    lemma_covers_leaves(first, first_order);
    lemma_covers_leaves(second, second_order);
    // a leaf of either tree is a leaf of the other
    assert forall|j: int| 0 <= j < l1.len() implies l2.contains(#[trigger] l1[j]) && items.contains(l1[j]) by {
        lemma_same_items_contains(first_order, items, l1[j]);
        lemma_same_items_contains(items, second_order, l1[j]);
        let k = choose|k: int| 0 <= k < second_order.len() && second_order[k] == l1[j];
    }
    assert forall|j: int| 0 <= j < l2.len() implies l1.contains(#[trigger] l2[j]) && items.contains(l2[j]) by {
        lemma_same_items_contains(second_order, items, l2[j]);
        lemma_same_items_contains(items, first_order, l2[j]);
        let k = choose|k: int| 0 <= k < first_order.len() && first_order[k] == l2[j];
    }
    assert forall|j: int| 0 <= j < l1.len() implies ordered(cross(#[trigger] l1[j].index)) by {
        let k = choose|k: int| 0 <= k < items.len() && items[k] == l1[j];
    }
    assert forall|j: int| 0 <= j < l2.len() implies ordered(cross(#[trigger] l2[j].index)) by {
        let k = choose|k: int| 0 <= k < items.len() && items[k] == l2[j];
    }
    lemma_search_nearest(c1, ray_t, cross, bx);
    lemma_search_nearest(c2, ray_t, cross, bx);
    let s1 = search(c1, ray_t, cross, bx);
    let s2 = search(c2, ray_t, cross, bx);
    if s1 is None {
        assert forall|j: int| 0 <= j < l2.len() implies crossing_within(
            cross(#[trigger] l2[j].index),
            ray_t,
        ) is None by {
            let k = choose|k: int| 0 <= k < l1.len() && l1[k] == l2[j];
        }
    }
    if s2 is None {
        assert forall|j: int| 0 <= j < l1.len() implies crossing_within(
            cross(#[trigger] l1[j].index),
            ray_t,
        ) is None by {
            let k = choose|k: int| 0 <= k < l2.len() && l2[k] == l1[j];
        }
    }
    if s1 is Some && s2 is Some {
        let (k1, t1) = s1->Some_0;
        let (k2, t2) = s2->Some_0;
        let j1 = choose|j: int| 0 <= j < l1.len() && #[trigger] l1[j].index == k1;
        let j2 = choose|j: int| 0 <= j < l2.len() && #[trigger] l2[j].index == k2;
        assert(l2.contains(l1[j1]));
        let m1 = choose|m: int| 0 <= m < l2.len() && l2[m] == l1[j1];
        assert(l1.contains(l2[j2]));
        let m2 = choose|m: int| 0 <= m < l1.len() && l1[m] == l2[j2];
        assert(crossing_within(cross(l2[m1].index), ray_t) == Some(t1));
        assert(crossing_within(cross(l1[m2].index), ray_t) == Some(t2));
    }
}

} // verus!

use crate::aabb::AxisAlignedBoundingBox;
use crate::bvh_node::{BvhChild, BvhItem, BvhNode};
use crate::interval::Interval;
use vstd::prelude::*;
use vstd::seq_lib::*;

verus! {

broadcast use group_to_multiset_ensures;

/// On axis `n`, the low bound of `b` is the least low bound of the items of
/// `s`, and its high bound the greatest high bound.
pub open spec fn hull_on_axis(b: AxisAlignedBoundingBox, s: Seq<BvhItem>, n: int) -> bool {
    &&& forall|i: int|
        0 <= i < s.len() ==> b.axis_spec(n).min <= (#[trigger] s[i]).bbox.axis_spec(n).min
            && s[i].bbox.axis_spec(n).max <= b.axis_spec(n).max
    &&& exists|i: int| 0 <= i < s.len() && b.axis_spec(n).min == (#[trigger] s[i]).bbox.axis_spec(n).min
    &&& exists|i: int| 0 <= i < s.len() && b.axis_spec(n).max == (#[trigger] s[i]).bbox.axis_spec(n).max
}

/// `b` is the smallest box that holds the boxes of all items of `s`.
pub open spec fn is_hull(b: AxisAlignedBoundingBox, s: Seq<BvhItem>) -> bool {
    hull_on_axis(b, s, 0) && hull_on_axis(b, s, 1) && hull_on_axis(b, s, 2)
}

proof fn lemma_merge_axis(a: AxisAlignedBoundingBox, b: AxisAlignedBoundingBox, n: int)
    ensures
        AxisAlignedBoundingBox::merge_spec(a, b).axis_spec(n) == Interval::merge_spec(
            a.axis_spec(n),
            b.axis_spec(n),
        ),
{
}

proof fn lemma_hull_concat_axis(
    b1: AxisAlignedBoundingBox,
    s1: Seq<BvhItem>,
    b2: AxisAlignedBoundingBox,
    s2: Seq<BvhItem>,
    n: int,
)
    requires
        hull_on_axis(b1, s1, n),
        hull_on_axis(b2, s2, n),
    ensures
        hull_on_axis(AxisAlignedBoundingBox::merge_spec(b1, b2), s1 + s2, n),
{
    let m = AxisAlignedBoundingBox::merge_spec(b1, b2);
    let s = s1 + s2;
    lemma_merge_axis(b1, b2, n);
    assert forall|i: int| 0 <= i < s.len() implies m.axis_spec(n).min <= (
    #[trigger] s[i]).bbox.axis_spec(n).min && s[i].bbox.axis_spec(n).max <= m.axis_spec(n).max by {
        if i < s1.len() {
            assert(s[i] == s1[i]);
        } else {
            assert(s[i] == s2[i - s1.len()]);
        }
    }
    let i1 = choose|i: int| 0 <= i < s1.len() && b1.axis_spec(n).min == (#[trigger] s1[i]).bbox.axis_spec(n).min;
    let i2 = choose|i: int| 0 <= i < s2.len() && b2.axis_spec(n).min == (#[trigger] s2[i]).bbox.axis_spec(n).min;
    if b1.axis_spec(n).min <= b2.axis_spec(n).min {
        assert(s[i1] == s1[i1]);
    } else {
        assert(s[s1.len() + i2] == s2[i2]);
    }
    let j1 = choose|i: int| 0 <= i < s1.len() && b1.axis_spec(n).max == (#[trigger] s1[i]).bbox.axis_spec(n).max;
    let j2 = choose|i: int| 0 <= i < s2.len() && b2.axis_spec(n).max == (#[trigger] s2[i]).bbox.axis_spec(n).max;
    if b1.axis_spec(n).max >= b2.axis_spec(n).max {
        assert(s[j1] == s1[j1]);
    } else {
        assert(s[s1.len() + j2] == s2[j2]);
    }
}

/// Merging the hulls of two sequences gives the hull of their concatenation.
proof fn lemma_hull_concat(
    b1: AxisAlignedBoundingBox,
    s1: Seq<BvhItem>,
    b2: AxisAlignedBoundingBox,
    s2: Seq<BvhItem>,
)
    requires
        is_hull(b1, s1),
        is_hull(b2, s2),
    ensures
        is_hull(AxisAlignedBoundingBox::merge_spec(b1, b2), s1 + s2),
{
    lemma_hull_concat_axis(b1, s1, b2, s2, 0);
    lemma_hull_concat_axis(b1, s1, b2, s2, 1);
    lemma_hull_concat_axis(b1, s1, b2, s2, 2);
}

proof fn lemma_hull_single(x: BvhItem)
    ensures
        is_hull(x.bbox, seq![x]),
{
    assert(seq![x][0] == x);
}

/// A tree built over `s` has as its box the hull of the items of `s`.
pub proof fn lemma_covers_hull(node: BvhNode, s: Seq<BvhItem>)
    requires
        node.covers(s),
    ensures
        is_hull(node.bbox, s),
    decreases s.len(),
{
    if s.len() == 1 {
        lemma_hull_single(s[0]);
        lemma_hull_concat(s[0].bbox, seq![s[0]], s[0].bbox, seq![s[0]]);
        assert(seq![s[0]] + seq![s[0]] =~= seq![s[0], s[0]]);
        assert forall|n: int| 0 <= n < 3 implies hull_on_axis(node.bbox, s, n) by {
            let t = seq![s[0], s[0]];
            assert(hull_on_axis(node.bbox, t, n));
            assert(t[0] == s[0] && t[1] == s[0]);
            assert forall|i: int| 0 <= i < s.len() implies node.bbox.axis_spec(n).min <= (
            #[trigger] s[i]).bbox.axis_spec(n).min && s[i].bbox.axis_spec(n).max
                <= node.bbox.axis_spec(n).max by {
                assert(t[0] == s[i]);
            }
            assert(node.bbox.axis_spec(n).min == s[0].bbox.axis_spec(n).min);
            assert(node.bbox.axis_spec(n).max == s[0].bbox.axis_spec(n).max);
        }
    } else if s.len() == 2 {
        lemma_hull_single(s[0]);
        lemma_hull_single(s[1]);
        lemma_hull_concat(s[0].bbox, seq![s[0]], s[1].bbox, seq![s[1]]);
        assert(seq![s[0]] + seq![s[1]] =~= s);
    } else {
        let m = s.len() as int / 2;
        match (node.left, node.right) {
            (BvhChild::Node(l), BvhChild::Node(r)) => {
                lemma_covers_hull(*l, s.subrange(0, m));
                lemma_covers_hull(*r, s.subrange(m, s.len() as int));
                lemma_hull_concat(l.bbox, s.subrange(0, m), r.bbox, s.subrange(m, s.len() as int));
                assert(s.subrange(0, m) + s.subrange(m, s.len() as int) =~= s);
            },
            _ => {},
        }
    }
}

proof fn lemma_hull_same_items_axis(
    b: AxisAlignedBoundingBox,
    s1: Seq<BvhItem>,
    s2: Seq<BvhItem>,
    n: int,
)
    requires
        hull_on_axis(b, s1, n),
        s1.to_multiset() == s2.to_multiset(),
    ensures
        hull_on_axis(b, s2, n),
{
    assert forall|i: int| 0 <= i < s2.len() implies b.axis_spec(n).min <= (
    #[trigger] s2[i]).bbox.axis_spec(n).min && s2[i].bbox.axis_spec(n).max <= b.axis_spec(n).max by {
        assert(s2.contains(s2[i]));
        assert(s2.to_multiset().count(s2[i]) > 0);
        assert(s1.contains(s2[i]));
        let k = choose|k: int| 0 <= k < s1.len() && s1[k] == s2[i];
    }
    let i1 = choose|i: int| 0 <= i < s1.len() && b.axis_spec(n).min == (#[trigger] s1[i]).bbox.axis_spec(n).min;
    assert(s1.contains(s1[i1]));
    assert(s1.to_multiset().count(s1[i1]) > 0);
    assert(s2.contains(s1[i1]));
    let k1 = choose|k: int| 0 <= k < s2.len() && s2[k] == s1[i1];
    assert(b.axis_spec(n).min == s2[k1].bbox.axis_spec(n).min);
    let j1 = choose|i: int| 0 <= i < s1.len() && b.axis_spec(n).max == (#[trigger] s1[i]).bbox.axis_spec(n).max;
    assert(s1.contains(s1[j1]));
    assert(s1.to_multiset().count(s1[j1]) > 0);
    assert(s2.contains(s1[j1]));
    let k2 = choose|k: int| 0 <= k < s2.len() && s2[k] == s1[j1];
    assert(b.axis_spec(n).max == s2[k2].bbox.axis_spec(n).max);
}

/// The hull depends on which items there are, not on their order.
pub proof fn lemma_hull_same_items(b: AxisAlignedBoundingBox, s1: Seq<BvhItem>, s2: Seq<BvhItem>)
    requires
        is_hull(b, s1),
        s1.to_multiset() == s2.to_multiset(),
    ensures
        is_hull(b, s2),
{
    lemma_hull_same_items_axis(b, s1, s2, 0);
    lemma_hull_same_items_axis(b, s1, s2, 1);
    lemma_hull_same_items_axis(b, s1, s2, 2);
}

/// The hull holds the box of every item: a node's box never culls a surface
/// below it.
pub proof fn lemma_hull_contains_items(b: AxisAlignedBoundingBox, s: Seq<BvhItem>)
    requires
        is_hull(b, s),
    ensures
        forall|i: int| 0 <= i < s.len() ==> b.contains_box(#[trigger] s[i].bbox),
{
    assert forall|i: int| 0 <= i < s.len() implies b.contains_box(#[trigger] s[i].bbox) by {
        assert(hull_on_axis(b, s, 0) && hull_on_axis(b, s, 1) && hull_on_axis(b, s, 2));
        assert(b.axis_spec(0) == b.x && b.axis_spec(1) == b.y && b.axis_spec(2) == b.z);
        assert(s[i].bbox.axis_spec(0) == s[i].bbox.x);
        assert(s[i].bbox.axis_spec(1) == s[i].bbox.y);
        assert(s[i].bbox.axis_spec(2) == s[i].bbox.z);
    }
}

proof fn lemma_hull_unique(b1: AxisAlignedBoundingBox, b2: AxisAlignedBoundingBox, s: Seq<BvhItem>)
    requires
        is_hull(b1, s),
        is_hull(b2, s),
    ensures
        b1 == b2,
{
    assert forall|n: int| 0 <= n < 3 implies b1.axis_spec(n) == b2.axis_spec(n) by {
        assert(hull_on_axis(b1, s, n) && hull_on_axis(b2, s, n));
        let k1 = choose|i: int| 0 <= i < s.len() && b1.axis_spec(n).min == (#[trigger] s[i]).bbox.axis_spec(n).min;
        let k2 = choose|i: int| 0 <= i < s.len() && b2.axis_spec(n).min == (#[trigger] s[i]).bbox.axis_spec(n).min;
        let j1 = choose|i: int| 0 <= i < s.len() && b1.axis_spec(n).max == (#[trigger] s[i]).bbox.axis_spec(n).max;
        let j2 = choose|i: int| 0 <= i < s.len() && b2.axis_spec(n).max == (#[trigger] s[i]).bbox.axis_spec(n).max;
    }
    assert(b1.axis_spec(0) == b2.axis_spec(0));
    assert(b1.axis_spec(1) == b2.axis_spec(1));
    assert(b1.axis_spec(2) == b2.axis_spec(2));
}

/// Two builds over the same surfaces, whatever split axes were drawn and
/// however the list was reordered, hold the same surfaces and have the same
/// root box.
pub proof fn lemma_rebuild_same_box(
    items: Seq<BvhItem>,
    first: BvhNode,
    first_order: Seq<BvhItem>,
    second: BvhNode,
    second_order: Seq<BvhItem>,
)
    requires
        first_order.to_multiset() == items.to_multiset(),
        second_order.to_multiset() == items.to_multiset(),
        first.covers(first_order),
        second.covers(second_order),
    ensures
        first_order.to_multiset() == second_order.to_multiset(),
        first.bbox == second.bbox,
{
    lemma_covers_hull(first, first_order);
    lemma_covers_hull(second, second_order);
    lemma_hull_same_items(first.bbox, first_order, items);
    lemma_hull_same_items(second.bbox, second_order, items);
    lemma_hull_unique(first.bbox, second.bbox, items);
}

} // verus!

use crate::aabb::AxisAlignedBoundingBox;
use crate::bvh_hull::{is_hull, lemma_covers_hull, lemma_hull_same_items};
use rand::RngExt;
use std::cmp::Ordering;
use vstd::prelude::*;
use vstd::seq_lib::*;

verus! {

broadcast use group_to_multiset_ensures;

/// A surface of the scene as the hierarchy sees it: its index in the scene's
/// surface list and its bounding box.
#[derive(Clone, Copy, Debug, PartialEq, Eq, Structural)]
pub struct BvhItem {
    pub index: usize,
    pub bbox: AxisAlignedBoundingBox,
}

impl BvhItem {
    /// The sort key on axis `axis`: the low bound of the box there.
    pub open spec fn key(self, axis: int) -> i64 {
        self.bbox.axis_spec(axis).min
    }

    pub fn new(index: usize, bbox: AxisAlignedBoundingBox) -> (r: Self)
        ensures
            r.index == index,
            r.bbox == bbox,
    {
        BvhItem { index, bbox }
    }
}

/// One side of a node: a surface, or a subtree.
#[derive(Debug)]
pub enum BvhChild {
    Leaf(BvhItem),
    Node(Box<BvhNode>),
}

impl BvhChild {
    pub open spec fn bbox_spec(self) -> AxisAlignedBoundingBox {
        match self {
            BvhChild::Leaf(item) => item.bbox,
            BvhChild::Node(node) => node.bbox,
        }
    }

    pub fn bounding_box(&self) -> (r: AxisAlignedBoundingBox)
        ensures
            r == self.bbox_spec(),
    {
        match self {
            BvhChild::Leaf(item) => item.bbox,
            BvhChild::Node(node) => node.bbox,
        }
    }
}

/// A node of the bounding volume hierarchy: two children and the box that
/// holds both.
#[derive(Debug)]
pub struct BvhNode {
    pub left: BvhChild,
    pub right: BvhChild,
    pub bbox: AxisAlignedBoundingBox,
}

/// The items of `s` before `m` all have keys on axis `a` no larger than those
/// from `m` on.
pub open spec fn split_sorted_on(s: Seq<BvhItem>, m: int, a: int) -> bool {
    forall|i: int, j: int| 0 <= i < m <= j < s.len() ==> #[trigger] s[i].key(a) <= #[trigger] s[j].key(a)
}

/// The split at `m` is sorted on one of the three axes.
pub open spec fn split_sorted(s: Seq<BvhItem>, m: int) -> bool {
    exists|a: int| 0 <= a < 3 && #[trigger] split_sorted_on(s, m, a)
}

/// Keys on `axis` do not decrease over `s[lo..hi]`.
pub open spec fn sorted_on(s: Seq<BvhItem>, lo: int, hi: int, axis: int) -> bool {
    forall|a: int, b: int| lo <= a < b < hi ==> #[trigger] s[a].key(axis) <= #[trigger] s[b].key(axis)
}

impl BvhNode {
    /// The node is the tree that building over `s`, in that order, yields: one
    /// item is held on both sides, two items one on each side, and more are
    /// split at the middle index into two subtrees, the first half keyed no
    /// higher than the second on some axis. Each box merges its children's.
    pub open spec fn covers(self, s: Seq<BvhItem>) -> bool
        decreases s.len(),
    {
        &&& self.bbox == AxisAlignedBoundingBox::merge_spec(
            self.left.bbox_spec(),
            self.right.bbox_spec(),
        )
        &&& if s.len() == 1 {
            self.left == BvhChild::Leaf(s[0]) && self.right == BvhChild::Leaf(s[0])
        } else if s.len() == 2 {
            self.left == BvhChild::Leaf(s[0]) && self.right == BvhChild::Leaf(s[1])
        } else if s.len() >= 3 {
            match (self.left, self.right) {
                (BvhChild::Node(l), BvhChild::Node(r)) => {
                    &&& l.covers(s.subrange(0, s.len() as int / 2))
                    &&& r.covers(s.subrange(s.len() as int / 2, s.len() as int))
                    &&& split_sorted(s, s.len() as int / 2)
                },
                _ => false,
            }
        } else {
            false
        }
    }
}

/// Relies on `rand::rng` and `RngExt::random_range`: a value drawn from the
/// thread-local generator within `0..=2`.
#[verifier::external_body]
fn random_axis() -> (r: usize)
    ensures
        r <= 2,
{
    rand::rng().random_range(0..=2)
}

/// How `a` orders against `b` by the low bound of their boxes on `axis`.
fn box_compare(a: &BvhItem, b: &BvhItem, axis: usize) -> (r: Ordering)
    ensures
        r == (if a.key(axis as int) < b.key(axis as int) {
            Ordering::Less
        } else if a.key(axis as int) > b.key(axis as int) {
            Ordering::Greater
        } else {
            Ordering::Equal
        }),
{
    let a_min = a.bbox.axis_interval(axis).min;
    let b_min = b.bbox.axis_interval(axis).min;
    if a_min < b_min {
        Ordering::Less
    } else if a_min > b_min {
        Ordering::Greater
    } else {
        Ordering::Equal
    }
}

proof fn lemma_swap_multiset(s: Seq<BvhItem>, lo: int, hi: int, p: int)
    requires
        0 <= lo <= p,
        p + 1 < hi <= s.len(),
    ensures
        s.update(p, s[p + 1]).update(p + 1, s[p]).subrange(lo, hi).to_multiset() == s.subrange(
            lo,
            hi,
        ).to_multiset(),
{
    let t = s.subrange(lo, hi);
    let q = p - lo;
    let t1 = t.update(q, t[q + 1]);
    let t2 = t1.update(q + 1, t[q]);
    assert(s.update(p, s[p + 1]).update(p + 1, s[p]).subrange(lo, hi) =~= t2);
    to_multiset_update(t, q, t[q + 1]);
    to_multiset_update(t1, q + 1, t[q]);
    assert(t2.to_multiset() =~= t.to_multiset());
}

/// Sorts `v[lo..hi]` in place by key on `axis`, stably; the rest of `v` is
/// left as it was.
fn sort_range(v: &mut Vec<BvhItem>, lo: usize, hi: usize, axis: usize)
    requires
        lo <= hi <= old(v).len(),
    ensures
        final(v).len() == old(v).len(),
        forall|k: int| 0 <= k < lo || hi <= k < old(v).len() ==> final(v)[k] == old(v)[k],
        final(v)@.subrange(lo as int, hi as int).to_multiset() == old(v)@.subrange(
            lo as int,
            hi as int,
        ).to_multiset(),
        sorted_on(final(v)@, lo as int, hi as int, axis as int),
{
    let ghost v0 = v@;
    let mut i: usize = lo;
    while i < hi
        invariant
            lo <= i <= hi <= v.len(),
            v.len() == v0.len(),
            forall|k: int| 0 <= k < lo || hi <= k < v0.len() ==> v[k] == v0[k],
            v@.subrange(lo as int, hi as int).to_multiset() == v0.subrange(
                lo as int,
                hi as int,
            ).to_multiset(),
            sorted_on(v@, lo as int, i as int, axis as int),
        decreases hi - i,
    {
        let mut j: usize = i;
        while j > lo && matches!(box_compare(&v[j - 1], &v[j], axis), Ordering::Greater)
            invariant
                lo <= j <= i < hi <= v.len(),
                v.len() == v0.len(),
                forall|k: int| 0 <= k < lo || hi <= k < v0.len() ==> v[k] == v0[k],
                v@.subrange(lo as int, hi as int).to_multiset() == v0.subrange(
                    lo as int,
                    hi as int,
                ).to_multiset(),
                forall|a: int, b: int|
                    lo <= a < b <= i && a != j && b != j ==> #[trigger] v[a].key(axis as int)
                        <= #[trigger] v[b].key(axis as int),
                forall|b: int| j < b <= i ==> v[j as int].key(axis as int) <= #[trigger] v[b].key(
                    axis as int,
                ),
            decreases j,
        {
            let ghost before = v@;
            let a = v[j - 1];
            let b = v[j];
            v.set(j - 1, b);
            v.set(j, a);
            proof {
                lemma_swap_multiset(before, lo as int, hi as int, j - 1);
                assert(v@ == before.update(j - 1, before[j as int]).update(
                    j as int,
                    before[j - 1],
                ));
            }
            j -= 1;
        }
        proof {
            assert forall|a: int, b: int| lo <= a < b < i + 1 implies #[trigger] v[a].key(
                axis as int,
            ) <= #[trigger] v[b].key(axis as int) by {
                if b == j && a < j - 1 {
                    assert(v[a].key(axis as int) <= v[j - 1].key(axis as int));
                }
            }
        }
        i += 1;
    }
}

/// Sorting a range and then permuting each of its two halves in place keeps
/// every key of the first half at most every key of the second.
proof fn lemma_split_after_permuting(
    sorted: Seq<BvhItem>,
    f: Seq<BvhItem>,
    lo: int,
    mid: int,
    hi: int,
    axis: int,
)
    requires
        0 <= lo <= mid <= hi <= sorted.len(),
        f.len() == sorted.len(),
        sorted_on(sorted, lo, hi, axis),
        f.subrange(lo, mid).to_multiset() == sorted.subrange(lo, mid).to_multiset(),
        f.subrange(mid, hi).to_multiset() == sorted.subrange(mid, hi).to_multiset(),
    ensures
        split_sorted_on(f.subrange(lo, hi), mid - lo, axis),
{
    let t = f.subrange(lo, hi);
    let fl = f.subrange(lo, mid);
    let fr = f.subrange(mid, hi);
    let sl = sorted.subrange(lo, mid);
    let sr = sorted.subrange(mid, hi);
    assert forall|i: int, j: int| 0 <= i < mid - lo <= j < t.len() implies #[trigger] t[i].key(
        axis,
    ) <= #[trigger] t[j].key(axis) by {
        assert(t[i] == fl[i]);
        assert(fl.contains(fl[i]));
        assert(fl.to_multiset().count(fl[i]) > 0);
        assert(sl.contains(fl[i]));
        let a = choose|a: int| 0 <= a < sl.len() && sl[a] == fl[i];
        let jj = j - (mid - lo);
        assert(t[j] == fr[jj]);
        assert(fr.contains(fr[jj]));
        assert(fr.to_multiset().count(fr[jj]) > 0);
        assert(sr.contains(fr[jj]));
        let b = choose|b: int| 0 <= b < sr.len() && sr[b] == fr[jj];
        assert(sorted[lo + a] == sl[a]);
        assert(sorted[mid + b] == sr[b]);
    }
}

/// Builds the hierarchy over `objects[lo..hi]`, reordering that range in place.
fn build_range(objects: &mut Vec<BvhItem>, lo: usize, hi: usize) -> (r: BvhNode)
    requires
        lo < hi <= old(objects).len(),
    ensures
        final(objects).len() == old(objects).len(),
        forall|k: int|
            0 <= k < lo || hi <= k < old(objects).len() ==> final(objects)[k] == old(objects)[k],
        final(objects)@.subrange(lo as int, hi as int).to_multiset() == old(objects)@.subrange(
            lo as int,
            hi as int,
        ).to_multiset(),
        r.covers(final(objects)@.subrange(lo as int, hi as int)),
    decreases hi - lo,
{
    let n = hi - lo;
    if n == 1 {
        let item = objects[lo];
        let bbox = AxisAlignedBoundingBox::merge_boxes(&item.bbox, &item.bbox);
        let r = BvhNode { left: BvhChild::Leaf(item), right: BvhChild::Leaf(item), bbox };
        proof {
            let t = objects@.subrange(lo as int, hi as int);
            assert(t[0] == item);
        }
        r
    } else if n == 2 {
        let first = objects[lo];
        let second = objects[lo + 1];
        let bbox = AxisAlignedBoundingBox::merge_boxes(&first.bbox, &second.bbox);
        let r = BvhNode { left: BvhChild::Leaf(first), right: BvhChild::Leaf(second), bbox };
        proof {
            let t = objects@.subrange(lo as int, hi as int);
            assert(t[0] == first && t[1] == second);
        }
        r
    } else {
        let ghost v0 = objects@;
        let axis = random_axis();
        sort_range(objects, lo, hi, axis);
        let ghost v1 = objects@;
        let mid = lo + n / 2;
        let left = build_range(objects, lo, mid);
        let ghost v2 = objects@;
        let right = build_range(objects, mid, hi);
        let ghost v3 = objects@;
        let bbox = AxisAlignedBoundingBox::merge_boxes(&left.bbox, &right.bbox);
        let r = BvhNode {
            left: BvhChild::Node(Box::new(left)),
            right: BvhChild::Node(Box::new(right)),
            bbox,
        };
        proof {
            let t = v3.subrange(lo as int, hi as int);
            assert(v3.subrange(lo as int, mid as int) =~= v2.subrange(lo as int, mid as int));
            assert(v2.subrange(mid as int, hi as int) =~= v1.subrange(mid as int, hi as int));
            assert(t.subrange(0, (n / 2) as int) =~= v3.subrange(lo as int, mid as int));
            assert(t.subrange((n / 2) as int, n as int) =~= v3.subrange(mid as int, hi as int));
            lemma_split_after_permuting(v1, v3, lo as int, mid as int, hi as int, axis as int);
            assert(split_sorted_on(t, (n / 2) as int, axis as int));
            assert(split_sorted(t, (n / 2) as int));
            assert(t =~= v3.subrange(lo as int, mid as int) + v3.subrange(mid as int, hi as int));
            assert(v1.subrange(lo as int, hi as int) =~= v1.subrange(lo as int, mid as int)
                + v1.subrange(mid as int, hi as int));
            lemma_multiset_commutative(
                v3.subrange(lo as int, mid as int),
                v3.subrange(mid as int, hi as int),
            );
            lemma_multiset_commutative(
                v1.subrange(lo as int, mid as int),
                v1.subrange(mid as int, hi as int),
            );
        }
        r
    }
}

impl BvhNode {
    /// Builds the hierarchy over a non-empty list of surfaces, reordering the
    /// list in place. Each node with three or more surfaces below it sorts
    /// them by the low bound of their boxes on an axis drawn at random and
    /// splits them at the middle index.
    pub fn new(objects: &mut Vec<BvhItem>) -> (r: Self)
        requires
            old(objects).len() > 0,
        ensures
            final(objects).len() == old(objects).len(),
            final(objects)@.to_multiset() == old(objects)@.to_multiset(),
            r.covers(final(objects)@),
            is_hull(r.bbox, old(objects)@),
    {
        let len = objects.len();
        let r = build_range(objects, 0, len);
        proof {
            assert(objects@.subrange(0, len as int) =~= objects@);
            assert(old(objects)@.subrange(0, len as int) =~= old(objects)@);
            lemma_covers_hull(r, objects@);
            lemma_hull_same_items(r.bbox, objects@, old(objects)@);
        }
        r
    }

    pub fn bounding_box(&self) -> (r: AxisAlignedBoundingBox)
        ensures
            r == self.bbox,
    {
        self.bbox
    }

    pub fn left(&self) -> (r: &BvhChild)
        ensures
            *r == self.left,
    {
        &self.left
    }

    pub fn right(&self) -> (r: &BvhChild)
        ensures
            *r == self.right,
    {
        &self.right
    }
}

} // verus!

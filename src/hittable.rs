use crate::interval::Interval;
use vstd::prelude::*;

verus! {

/// The crossing a surface reports for a ray whose parameters of entry and exit
/// are `near` and `far`: `near` if it lies strictly inside `ray_t`, else `far`
/// if that does, else none.
pub open spec fn first_root_spec(near: i64, far: i64, ray_t: Interval) -> Option<i64> {
    if ray_t.min < near && near < ray_t.max {
        Some(near)
    } else if ray_t.min < far && far < ray_t.max {
        Some(far)
    } else {
        None
    }
}

/// The crossing that surface `c` reports within `ray_t`; a surface the ray
/// misses (`None`) reports none.
pub open spec fn crossing_within(c: Option<(i64, i64)>, ray_t: Interval) -> Option<i64> {
    match c {
        Some((near, far)) => first_root_spec(near, far, ray_t),
        None => None,
    }
}

/// The pair of crossings is ordered: entry no later than exit.
pub open spec fn ordered(c: Option<(i64, i64)>) -> bool {
    match c {
        Some((near, far)) => near <= far,
        None => true,
    }
}

/// `r` is the closest hit among surfaces with crossings `cs`: the least
/// parameter that any of them reports within `ray_t`, with the first surface
/// that reports it; none exactly when no surface reports one.
pub open spec fn is_closest(cs: Seq<Option<(i64, i64)>>, ray_t: Interval, r: Option<(usize, i64)>) -> bool {
    &&& r is None <==> forall|i: int| 0 <= i < cs.len() ==> crossing_within(#[trigger] cs[i], ray_t) is None
    &&& r matches Some((k, t)) ==> {
        &&& k < cs.len()
        &&& crossing_within(cs[k as int], ray_t) == Some(t)
        &&& forall|i: int|
            0 <= i < cs.len() ==> (#[trigger] crossing_within(cs[i], ray_t) matches Some(u) ==> t <= u)
        &&& forall|i: int| 0 <= i < k ==> crossing_within(#[trigger] cs[i], ray_t) != Some(t)
    }
}

/// Picks the parameter at which a ray meets a sphere, given the two roots of
/// its quadratic: the smaller one if it lies strictly inside `ray_t`, else the
/// larger one if that does.
pub fn first_root_within(near: i64, far: i64, ray_t: &Interval) -> (r: Option<i64>)
    ensures
        r == first_root_spec(near, far, *ray_t),
{
    if ray_t.surrounds(near) {
        Some(near)
    } else if ray_t.surrounds(far) {
        Some(far)
    } else {
        None
    }
}

/// The closest hit among the surfaces of a collection. Surface `i` meets the
/// ray at the ordered pair `crossings[i]`, or not at all. The result is the
/// least parameter that any surface reports within `ray_t`, with the first
/// surface that reports it; none when no surface does.
pub fn closest_hit(crossings: &Vec<Option<(i64, i64)>>, ray_t: Interval) -> (r: Option<(usize, i64)>)
    requires
        forall|i: int| 0 <= i < crossings.len() ==> ordered(#[trigger] crossings[i]),
    ensures
        is_closest(crossings@, ray_t, r),
{
    let mut best: Option<(usize, i64)> = None;
    let mut closest_so_far = ray_t.max;
    let mut i: usize = 0;
    while i < crossings.len()
        invariant
            i <= crossings.len(),
            forall|j: int| 0 <= j < crossings.len() ==> ordered(#[trigger] crossings[j]),
            best is None ==> closest_so_far == ray_t.max,
            best is None <==> forall|j: int|
                0 <= j < i ==> crossing_within(#[trigger] crossings[j], ray_t) is None,
            best matches Some((k, t)) ==> {
                &&& k < i
                &&& t == closest_so_far
                &&& crossing_within(crossings[k as int], ray_t) == Some(t)
                &&& forall|j: int|
                    0 <= j < i ==> (#[trigger] crossing_within(crossings[j], ray_t) matches Some(u)
                        ==> t <= u)
                &&& forall|j: int| 0 <= j < k ==> crossing_within(#[trigger] crossings[j], ray_t) != Some(t)
            },
        decreases crossings.len() - i,
    {
        if let Some((near, far)) = crossings[i] {
            let shrunk = Interval::new(ray_t.min, closest_so_far);
            if let Some(t) = first_root_within(near, far, &shrunk) {
                best = Some((i, t));
                closest_so_far = t;
            }
        }
        i += 1;
    }
    best
}

} // verus!

//! The integer side of the thread tolerance bound with shared reuses: which
//! histogram distances bound the eviction time.
use vstd::prelude::*;
use crate::ccdf::{lower_bound, nondecreasing};

verus! {

/// How many of the leading distances lie below `v`; in nondecreasing
/// distances, the position where `v` would be inserted before its equals.
pub open spec fn leading_below(keys: Seq<usize>, v: usize) -> nat
    decreases keys.len(),
{
    if keys.len() > 0 && keys[0] < v {
        1 + leading_below(keys.drop_first(), v)
    } else {
        0
    }
}

proof fn lemma_leading_below(keys: Seq<usize>, v: usize, p: int)
    requires
        0 <= p <= keys.len(),
        forall|j: int| 0 <= j < p ==> keys[j] < v,
        p < keys.len() ==> keys[p] >= v,
    ensures
        leading_below(keys, v) == p,
    decreases keys.len(),
{
    if keys.len() > 0 && p > 0 {
        lemma_leading_below(keys.drop_first(), v, p - 1);
    }
}

/// The position in `keys` before which every distance is below `v`, as
/// `slice::partition_point` finds it; exact for nondecreasing distances.
pub fn partition_point_below(keys: &Vec<usize>, v: usize) -> (r: usize)
    ensures
        r <= keys@.len(),
        nondecreasing(keys@) ==> r == leading_below(keys@, v),
{
    let r = lower_bound(keys, v);
    proof {
        if nondecreasing(keys@) {
            lemma_leading_below(keys@, v, r as int);
        }
    }
    r
}

/// The pair of distances that bound the eviction time `aet` of a window.
/// Without a shared eviction time: the last distance below `aet` and the one
/// after it. With the shared eviction time `s`: the last distance below `s`
/// and the first one not below `aet`. `None` when a position falls outside
/// the histogram.
pub open spec fn tolerance_pair(keys: Seq<usize>, aet: usize, shared: Option<usize>) -> Option<
    (usize, usize),
> {
    match shared {
        None => {
            let p = leading_below(keys, aet);
            if p == 0 || p >= keys.len() {
                None
            } else {
                Some((keys[p - 1], keys[p as int]))
            }
        },
        Some(s) => {
            let y = leading_below(keys, aet);
            let x = leading_below(keys, s);
            if x == 0 || y >= keys.len() {
                None
            } else {
                Some((keys[x - 1], keys[y as int]))
            }
        },
    }
}

/// Finds the distances that bound the eviction time, as `tolerance_pair`
/// states for nondecreasing distances; whatever the distances, the pair
/// found consists of distances of the histogram.
pub fn tolerance_distances(keys: &Vec<usize>, aet: usize, shared: Option<usize>) -> (r: Option<
    (usize, usize),
>)
    ensures
        nondecreasing(keys@) ==> r == tolerance_pair(keys@, aet, shared),
        r matches Some((x, y)) ==> keys@.contains(x) && keys@.contains(y),
{
    let n = keys.len();
    match shared {
        None => {
            let p = partition_point_below(keys, aet);
            if p == 0 || p >= n {
                return None;
            }
            let x = keys[p - 1];
            let y = keys[p];
            assert(keys@[p - 1] == x && keys@[p as int] == y);
            Some((x, y))
        },
        Some(s) => {
            let iy = partition_point_below(keys, aet);
            let ix = partition_point_below(keys, s);
            if ix == 0 || iy >= n {
                return None;
            }
            let x = keys[ix - 1];
            let y = keys[iy];
            assert(keys@[ix - 1] == x && keys@[iy as int] == y);
            Some((x, y))
        },
    }
}

/// The shared eviction time kept for a window with eviction time `aet`:
/// the candidate found in the private distribution counts only when it lies
/// below both the largest private reuse distance and `aet`.
pub fn settle_shared_aet(candidate: usize, local_max_reuse: usize, aet: usize) -> (r: Option<usize>)
    ensures
        r == if candidate >= local_max_reuse || candidate >= aet {
            None::<usize>
        } else {
            Some(candidate)
        },
{
    if candidate >= local_max_reuse || candidate >= aet {
        None
    } else {
        Some(candidate)
    }
}


/// `p` splits the nondecreasing distances at `v`: all before it lie below
/// `v`, and none from it on does.
pub open spec fn splits_at(keys: Seq<usize>, v: usize, p: int) -> bool {
    &&& 0 <= p <= keys.len()
    &&& forall|j: int| 0 <= j < p ==> keys[j] < v
    &&& forall|j: int| p <= j < keys.len() ==> keys[j] >= v
}

/// Without a shared eviction time, the bounding pair is the last distance
/// below `aet` and the first one at or above it, defined exactly when both
/// exist: for the split point `p` of `aet`, `Some((keys[p - 1], keys[p]))`
/// whenever `0 < p < len`, and `None` only when no distance lies below `aet`
/// or none lies at or above it. So the pair always brackets `aet`.
pub proof fn lemma_private_pair_brackets_aet(keys: Seq<usize>, aet: usize, p: int)
    requires
        nondecreasing(keys),
        splits_at(keys, aet, p),
    ensures
        0 < p < keys.len() ==> tolerance_pair(keys, aet, None) == Some((keys[p - 1], keys[p])),
        (p == 0 || p == keys.len()) ==> tolerance_pair(keys, aet, None) is None,
        tolerance_pair(keys, aet, None) matches Some((x, y)) ==> x < aet <= y,
{
    lemma_leading_below(keys, aet, p);
}

/// With the shared eviction time `s`, the pair is the last distance below
/// `s` and the first distance at or above `aet`, for the split points `px`
/// of `s` and `py` of `aet`; it is undefined exactly when no distance lies
/// below `s` or none lies at or above `aet`.
pub proof fn lemma_shared_pair(keys: Seq<usize>, aet: usize, s: usize, px: int, py: int)
    requires
        nondecreasing(keys),
        splits_at(keys, s, px),
        splits_at(keys, aet, py),
    ensures
        tolerance_pair(keys, aet, Some(s)) == if px == 0 || py == keys.len() {
            None
        } else {
            Some((keys[px - 1], keys[py]))
        },
        tolerance_pair(keys, aet, Some(s)) matches Some((x, y)) ==> x < s && aet <= y,
{
    lemma_leading_below(keys, aet, py);
    lemma_leading_below(keys, s, px);
}

} // verus!

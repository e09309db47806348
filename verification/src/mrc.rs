//! The miss ratio curve read off a complementary distribution: for each
//! cache size, the distance at which the running integral of the
//! distribution first reaches it.
use vstd::prelude::*;

verus! {

/// From position `t` on, the first position whose rounded-down integral
/// reaches `c`, or the end: `sums[t]` is the integral of the first `t`
/// values, rounded down, and there are `sums.len() - 1` values.
pub open spec fn advance(sums: Seq<usize>, c: nat, t: nat) -> nat
    decreases sums.len() - t,
{
    if t + 1 < sums.len() && sums[t as int] < c {
        advance(sums, c, t + 1)
    } else {
        t
    }
}

/// How many values the integration has consumed once it has reached the
/// cache size `c`, going on from where it stopped for `c - 1`.
pub open spec fn stop_for(sums: Seq<usize>, c: nat) -> nat
    decreases c,
{
    if c == 0 {
        0
    } else {
        advance(sums, c, stop_for(sums, (c - 1) as nat))
    }
}

proof fn lemma_advance_bounds(sums: Seq<usize>, c: nat, t: nat)
    requires
        t < sums.len(),
    ensures
        t <= advance(sums, c, t) < sums.len(),
    decreases sums.len() - t,
{
    if t + 1 < sums.len() && sums[t as int] < c {
        lemma_advance_bounds(sums, c, t + 1);
    }
}

proof fn lemma_stop_for_bounds(sums: Seq<usize>, c: nat)
    requires
        sums.len() >= 1,
    ensures
        stop_for(sums, c) < sums.len(),
    decreases c,
{
    if c > 0 {
        lemma_stop_for_bounds(sums, (c - 1) as nat);
        lemma_advance_bounds(sums, c, stop_for(sums, (c - 1) as nat));
    }
}

/// For each cache size `1..cache_limit`, the position of the distribution
/// value that gives its miss ratio: the last value the integration consumed
/// to reach that size. `sums[t]` is the integral of the first `t` values
/// rounded down; the integral of no values is 0.
pub fn miss_ratio_positions(sums: &Vec<usize>, cache_limit: usize) -> (r: Vec<usize>)
    requires
        cache_limit >= 2 ==> sums@.len() >= 2 && sums@[0] == 0,
    ensures
        r@.len() == if cache_limit >= 1 { cache_limit - 1 } else { 0 },
        forall|k: int|
            0 <= k < r@.len() ==> #[trigger] r@[k] == stop_for(sums@, (k + 1) as nat) - 1,
        forall|k: int| 0 <= k < r@.len() ==> #[trigger] r@[k] < sums@.len() - 1,
{
    let n = sums.len();
    let mut r: Vec<usize> = Vec::new();
    if cache_limit < 2 {
        return r;
    }
    let mut t: usize = 0;
    let mut c: usize = 1;
    while c < cache_limit
        invariant
            n == sums@.len() >= 2,
            sums@[0] == 0,
            1 <= c <= cache_limit,
            r@.len() == c - 1,
            t == stop_for(sums@, (c - 1) as nat),
            c >= 2 ==> t >= 1,
            t < n,
            forall|k: int|
                0 <= k < r@.len() ==> #[trigger] r@[k] == stop_for(sums@, (k + 1) as nat) - 1,
            forall|k: int| 0 <= k < r@.len() ==> #[trigger] r@[k] < n - 1,
        decreases cache_limit - c,
    {
        let ghost t0 = t;
        while t + 1 < n && sums[t] < c
            invariant
                n == sums@.len(),
                t0 <= t < n,
                advance(sums@, c as nat, t0 as nat) == advance(sums@, c as nat, t as nat),
            decreases n - t,
        {
            t = t + 1;
        }
        proof {
            lemma_stop_for_bounds(sums@, c as nat);
            if c == 1 {
                assert(t0 == 0);
                assert(sums@[0] < 1);
            }
        }
        r.push(t - 1);
        c = c + 1;
    }
    r
}


/// `t` is where the integral first reaches `c`, or the last position when it
/// never does.
pub open spec fn first_reach(sums: Seq<usize>, c: nat, t: nat) -> bool {
    &&& t < sums.len()
    &&& (sums[t as int] >= c || t == sums.len() - 1)
    &&& forall|j: int| 0 <= j < t ==> sums[j] < c
}

proof fn lemma_advance_first(sums: Seq<usize>, c: nat, t: nat)
    requires
        t < sums.len(),
        forall|j: int| 0 <= j < t ==> sums[j] < c,
    ensures
        first_reach(sums, c, advance(sums, c, t)),
    decreases sums.len() - t,
{
    if t + 1 < sums.len() && sums[t as int] < c {
        lemma_advance_first(sums, c, t + 1);
    }
}

/// When the rounded integrals never decrease, the integration stops for
/// each cache size `c >= 1` exactly where the integral first reaches `c` (or
/// at the end): the miss ratio of a cache is read at its eviction time.
pub proof fn lemma_stop_is_first_reach(sums: Seq<usize>, c: nat)
    requires
        sums.len() >= 1,
        forall|a: int, b: int| 0 <= a <= b < sums.len() ==> #[trigger] sums[a] <= #[trigger] sums[b],
        c >= 1,
    ensures
        first_reach(sums, c, stop_for(sums, c)),
    decreases c,
{
    let prev = stop_for(sums, (c - 1) as nat);
    if c == 1 {
        lemma_advance_first(sums, c, 0);
    } else {
        lemma_stop_is_first_reach(sums, (c - 1) as nat);
        lemma_advance_first(sums, c, prev);
    }
}

/// The positions that the curve reads never go back as the cache grows.
pub proof fn lemma_stops_nondecreasing(sums: Seq<usize>, c: nat)
    requires
        sums.len() >= 1,
    ensures
        stop_for(sums, c) <= stop_for(sums, c + 1),
{
    lemma_stop_for_bounds(sums, c);
    lemma_advance_bounds(sums, c + 1, stop_for(sums, c));
}

} // verus!

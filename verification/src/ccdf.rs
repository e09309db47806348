//! The integer skeleton of a complementary cumulative distribution built
//! from a sparse reuse-distance histogram: which histogram entry takes effect
//! at which distance, and the average eviction time found in the accumulated
//! distribution.
use vstd::prelude::*;

verus! {

/// The largest distance of the histogram: that of its last entry, or 0.
pub open spec fn max_distance(keys: Seq<usize>) -> nat {
    if keys.len() == 0 {
        0
    } else {
        keys.last() as nat
    }
}

/// How many entries the walk over the distances `1..=i` has taken: at each
/// distance it takes the next entry when that entry's distance is not larger.
pub open spec fn taken(keys: Seq<usize>, i: nat) -> nat
    decreases i,
{
    if i == 0 {
        0
    } else {
        let c = taken(keys, (i - 1) as nat);
        if c < keys.len() && keys[c as int] <= i {
            c + 1
        } else {
            c
        }
    }
}

/// The entry that takes effect at distance `i`, if any.
pub open spec fn entry_at(keys: Seq<usize>, i: nat) -> Option<usize> {
    if i >= 1 && taken(keys, i) > taken(keys, (i - 1) as nat) {
        Some(taken(keys, (i - 1) as nat) as usize)
    } else {
        None
    }
}

proof fn lemma_taken_bounded(keys: Seq<usize>, i: nat)
    requires
        keys.len() > 0,
        i < keys.last(),
    ensures
        taken(keys, i) < keys.len(),
    decreases i,
{
    if i > 0 {
        lemma_taken_bounded(keys, (i - 1) as nat);
        let c = taken(keys, (i - 1) as nat);
        if c == keys.len() - 1 {
            assert(keys[c as int] == keys.last());
        }
    }
}

/// For each distance `0..=max` of the histogram whose entry distances are
/// `keys`, the entry that takes effect there: the walk that builds the
/// distribution, which carries the previous value over a distance without
/// an entry. No entry takes effect at distance 0.
pub fn entries_by_distance(keys: &Vec<usize>) -> (r: Vec<Option<usize>>)
    requires
        max_distance(keys@) < usize::MAX,
    ensures
        r@.len() == max_distance(keys@) + 1,
        forall|i: int| 0 <= i < r@.len() ==> #[trigger] r@[i] == entry_at(keys@, i as nat),
        forall|i: int|
            0 <= i < r@.len() ==> match #[trigger] r@[i] {
                Some(k) => k < keys@.len(),
                None => true,
            },
{
    let n = keys.len();
    let max: usize = if n == 0 {
        0
    } else {
        keys[n - 1]
    };
    let mut r: Vec<Option<usize>> = Vec::new();
    r.push(None);
    let mut c: usize = 0;
    let mut i: usize = 1;
    while i <= max
        invariant
            n == keys@.len(),
            max == max_distance(keys@),
            max < usize::MAX,
            1 <= i <= max + 1,
            r@.len() == i,
            c == taken(keys@, (i - 1) as nat),
            c <= n,
            i - 1 < max ==> c < n,
            forall|j: int| 0 <= j < i ==> #[trigger] r@[j] == entry_at(keys@, j as nat),
            forall|j: int|
                0 <= j < i ==> match #[trigger] r@[j] {
                    Some(k) => k < n,
                    None => true,
                },
        decreases max + 1 - i,
    {
        proof {
            if n > 0 {
                lemma_taken_bounded(keys@, (i - 1) as nat);
            }
        }
        if keys[c] <= i {
            r.push(Some(c));
            c = c + 1;
        } else {
            r.push(None);
        }
        proof {
            if i < max && c == n {
                lemma_taken_bounded(keys@, i as nat);
            }
        }
        i = i + 1;
    }
    r
}


/// The distances strictly increase and start at 1 or above, as those of a
/// histogram read with `DumpedData::new` from positive distances do.
pub open spec fn strictly_increasing_from_one(keys: Seq<usize>) -> bool {
    &&& forall|a: int, b: int| 0 <= a < b < keys.len() ==> #[trigger] keys[a] < #[trigger] keys[b]
    &&& keys.len() > 0 ==> keys[0] >= 1
}

proof fn lemma_taken_counts(keys: Seq<usize>, i: nat)
    requires
        strictly_increasing_from_one(keys),
    ensures
        taken(keys, i) <= keys.len(),
        taken(keys, i) > 0 ==> keys[taken(keys, i) - 1] <= i,
        taken(keys, i) < keys.len() ==> keys[taken(keys, i) as int] > i,
    decreases i,
{
    if i > 0 {
        lemma_taken_counts(keys, (i - 1) as nat);
        let c = taken(keys, (i - 1) as nat);
        if c + 1 < keys.len() && c < keys.len() && keys[c as int] <= i {
            assert(keys[c as int] < keys[c + 1 as int]);
        }
    }
}

/// Over a histogram whose distances strictly increase from 1 on, the walk
/// puts each entry exactly at its own distance: the entry `k` takes effect
/// at distance `i` if and only if its distance is `i`.
pub proof fn lemma_entry_at_own_distance(keys: Seq<usize>, i: nat, k: int)
    requires
        strictly_increasing_from_one(keys),
        keys.len() <= usize::MAX,
        0 <= k < keys.len(),
    ensures
        entry_at(keys, i) == Some(k as usize) <==> keys[k] == i,
{
    if i >= 1 {
        lemma_taken_counts(keys, i);
        lemma_taken_counts(keys, (i - 1) as nat);
        let c = taken(keys, (i - 1) as nat);
        if c < keys.len() && keys[c as int] <= i {
            assert(keys[c as int] == i);
            assert(entry_at(keys, i) == Some(c as usize));
        } else {
            assert(entry_at(keys, i) is None);
        }
        if keys[k] == i {
            if k < c {
                assert(keys[k] <= keys[c - 1]);
            }
            if k > c {
                assert(keys[c as int] < keys[k]);
            }
            assert(k == c);
        }
    } else {
        assert(keys[k] >= keys[0]);
    }
}

/// Over a histogram whose distances strictly increase from 1 on, the walk up
/// to the largest distance takes every entry: the whole mass of the
/// histogram is accounted for, so the distribution ends at zero.
pub proof fn lemma_walk_takes_all(keys: Seq<usize>)
    requires
        strictly_increasing_from_one(keys),
    ensures
        taken(keys, max_distance(keys)) == keys.len(),
{
    lemma_taken_counts(keys, max_distance(keys));
    let c = taken(keys, max_distance(keys));
    if keys.len() > 0 && c < keys.len() {
        if c < keys.len() - 1 {
            assert(keys[c as int] < keys[keys.len() - 1]);
        }
    }
}


/// The values of `s` never decrease.
pub open spec fn nondecreasing(s: Seq<usize>) -> bool {
    forall|a: int, b: int| 0 <= a <= b < s.len() ==> #[trigger] s[a] <= #[trigger] s[b]
}

/// `t` is the first position of `c` in `s`.
pub open spec fn first_position(s: Seq<usize>, c: usize, t: int) -> bool {
    &&& 0 <= t < s.len()
    &&& s[t] == c
    &&& forall|j: int| 0 <= j < t ==> s[j] != c
}

/// The first position whose value is not below `x`, found by bisection: in
/// nondecreasing values, every value before it is below `x`, and the value
/// there, if any, is not.
pub fn lower_bound(v: &Vec<usize>, x: usize) -> (r: usize)
    ensures
        r <= v@.len(),
        nondecreasing(v@) ==> forall|j: int| 0 <= j < r ==> v@[j] < x,
        nondecreasing(v@) ==> forall|j: int| r <= j < v@.len() ==> v@[j] >= x,
{
    let mut lo: usize = 0;
    let mut hi: usize = v.len();
    while lo < hi
        invariant
            lo <= hi <= v@.len(),
            nondecreasing(v@) ==> forall|j: int| 0 <= j < lo ==> v@[j] < x,
            nondecreasing(v@) ==> forall|j: int| hi <= j < v@.len() ==> v@[j] >= x,
        decreases hi - lo,
    {
        let mid = lo + (hi - lo) / 2;
        if v[mid] < x {
            proof {
                if nondecreasing(v@) {
                    assert forall|j: int| 0 <= j < mid + 1 implies v@[j] < x by {
                        assert(v@[j] <= v@[mid as int]);
                    }
                }
            }
            lo = mid + 1;
        } else {
            proof {
                if nondecreasing(v@) {
                    assert forall|j: int| mid <= j < v@.len() implies v@[j] >= x by {
                        assert(v@[mid as int] <= v@[j]);
                    }
                }
            }
            hi = mid;
        }
    }
    lo
}

/// The accumulated complementary distribution of reuse distances, each
/// value rounded down: at position `t`, the integral of the distribution up
/// to distance `t`, which is the cache size that a reuse window `t` fills.
pub struct AccumulatedCcdf {
    pub floors: Vec<usize>,
}

impl AccumulatedCcdf {
    /// The largest reuse distance the distribution covers.
    pub fn max_reuse_distance(&self) -> (r: usize)
        requires
            self.floors@.len() >= 1,
        ensures
            r == self.floors@.len() - 1,
    {
        self.floors.len() - 1
    }

    /// The average eviction time for `cache_size`: the first window whose
    /// accumulated distribution rounds down to the cache size, or `None` when
    /// no window does (the cache is larger than the distribution reaches).
    pub fn aet(&self, cache_size: usize) -> (r: Option<usize>)
        ensures
            r matches Some(t) ==> t < self.floors@.len() && self.floors@[t as int] == cache_size,
            nondecreasing(self.floors@) ==> match r {
                Some(t) => first_position(self.floors@, cache_size, t as int),
                None => !self.floors@.contains(cache_size),
            },
            nondecreasing(self.floors@) && rises_by_at_most_one(self.floors@) && self.floors@.len()
                > 0 && 1 <= cache_size <= self.floors@.last() ==> r is Some,
            nondecreasing(self.floors@) ==> (r is Some ==> self.floors@[0] <= cache_size
                <= self.floors@.last()),
    {
        proof {
            if rises_by_at_most_one(self.floors@) && self.floors@.len() > 0 && 1 <= cache_size
                <= self.floors@.last() {
                lemma_no_cache_size_skipped(self.floors@, cache_size);
            }
        }
        let t = lower_bound(&self.floors, cache_size);
        if t < self.floors.len() && self.floors[t] == cache_size {
            Some(t)
        } else {
            proof {
                if nondecreasing(self.floors@) {
                    assert forall|j: int| 0 <= j < self.floors@.len() implies self.floors@[j]
                        != cache_size by {
                        if j >= t {
                            if j > t {
                                assert(self.floors@[t as int] <= self.floors@[j]);
                            }
                        }
                    }
                }
            }
            None
        }
    }
}


/// The table starts at 1 or below and rises by at most 1 per distance, as
/// the accumulated distribution does: it starts at 1 and adds a value of at
/// most 1 at each distance.
pub open spec fn rises_by_at_most_one(floors: Seq<usize>) -> bool {
    &&& floors.len() > 0 ==> floors[0] <= 1
    &&& forall|i: int| 0 <= i < floors.len() - 1 ==> #[trigger] floors[i + 1] <= floors[i] + 1
}

proof fn lemma_reached_below(floors: Seq<usize>, c: usize, j: int)
    requires
        rises_by_at_most_one(floors),
        1 <= c,
        0 <= j < floors.len(),
        floors[j] >= c,
    ensures
        floors.contains(c),
    decreases j,
{
    if floors[j] == c {
        assert(floors[j] == c);
    } else if j == 0 {
        assert(floors[0] <= 1);
    } else {
        assert(floors[j - 1 + 1] <= floors[j - 1] + 1);
        lemma_reached_below(floors, c, j - 1);
    }
}

/// In a table that starts at 1 or below and rises by at most 1 per
/// distance, no cache size is skipped: every size from 1 up to the last
/// value occurs, so when the table never decreases, `aet` finds each one.
pub proof fn lemma_no_cache_size_skipped(floors: Seq<usize>, c: usize)
    requires
        rises_by_at_most_one(floors),
        floors.len() > 0,
        1 <= c <= floors.last(),
    ensures
        floors.contains(c),
        exists|t: int| first_position(floors, c, t),
{
    lemma_reached_below(floors, c, floors.len() - 1);
    let k = choose|k: int| 0 <= k < floors.len() && floors[k] == c;
    lemma_first_position_exists(floors, c, k);
}

proof fn lemma_first_position_exists(s: Seq<usize>, c: usize, k: int)
    requires
        0 <= k < s.len(),
        s[k] == c,
    ensures
        exists|t: int| first_position(s, c, t),
    decreases k,
{
    if exists|j: int| 0 <= j < k && s[j] == c {
        let j = choose|j: int| 0 <= j < k && s[j] == c;
        lemma_first_position_exists(s, c, j);
    } else {
        assert(first_position(s, c, k));
    }
}


/// How many entries took effect at the distances `1..=i`, counted from the
/// walk's own results.
pub open spec fn effects_up_to(keys: Seq<usize>, i: nat) -> nat
    decreases i,
{
    if i == 0 {
        0
    } else {
        effects_up_to(keys, (i - 1) as nat) + if entry_at(keys, i) is Some {
            1nat
        } else {
            0nat
        }
    }
}

proof fn lemma_effects_are_taken(keys: Seq<usize>, i: nat)
    ensures
        effects_up_to(keys, i) == taken(keys, i),
        taken(keys, i) <= keys.len(),
    decreases i,
{
    if i > 0 {
        lemma_effects_are_taken(keys, (i - 1) as nat);
    }
}

/// Whatever the distances, sorted or not: the entries take effect in order,
/// one at a time, and at each distance `i >= 1` the next entry not yet taken
/// takes effect exactly when its distance is at most `i`. Counting the
/// entries that took effect before `i` as `n`, the entry at `i` is `Some(n)`
/// if `n < len` and `keys[n] <= i`, and `None` otherwise.
pub proof fn lemma_walk_takes_next_when_due(keys: Seq<usize>, i: nat)
    requires
        i >= 1,
        keys.len() <= usize::MAX,
    ensures
        ({
            let n = effects_up_to(keys, (i - 1) as nat);
            entry_at(keys, i) == if n < keys.len() && keys[n as int] <= i {
                Some(n as usize)
            } else {
                None::<usize>
            }
        }),
{
    lemma_effects_are_taken(keys, (i - 1) as nat);
}

/// The distance at which entry `c` takes effect: the larger of its own
/// distance and one past the distance of the entry before it (entries take
/// effect in order, at most one per distance, and none at distance 0).
pub open spec fn due(keys: Seq<usize>, c: nat) -> nat
    decreases c,
{
    let own = keys[c as int] as nat;
    let after = if c == 0 {
        1
    } else {
        due(keys, (c - 1) as nat) + 1
    };
    if own > after {
        own
    } else {
        after
    }
}

proof fn lemma_due_increases(keys: Seq<usize>, a: nat, b: nat)
    requires
        a < b,
    ensures
        due(keys, a) < due(keys, b),
    decreases b,
{
    if a < b - 1 {
        lemma_due_increases(keys, a, (b - 1) as nat);
    }
}

proof fn lemma_taken_is_due_count(keys: Seq<usize>, i: nat)
    ensures
        taken(keys, i) <= keys.len(),
        forall|c: nat| c < taken(keys, i) ==> #[trigger] due(keys, c) <= i,
        taken(keys, i) < keys.len() ==> due(keys, taken(keys, i)) > i,
    decreases i,
{
    if i > 0 {
        lemma_taken_is_due_count(keys, (i - 1) as nat);
        let c = taken(keys, (i - 1) as nat);
        if c < keys.len() && keys[c as int] <= i {
            if c > 0 {
                assert(due(keys, (c - 1) as nat) <= i - 1);
            }
            assert(due(keys, c) <= i);
            assert forall|k: nat| k < c + 1 implies #[trigger] due(keys, k) <= i by {
                if k < c {
                    assert(due(keys, k) <= i - 1);
                }
            }
            if c + 1 < keys.len() {
                assert(due(keys, c) >= i);
                lemma_due_increases(keys, c, c + 1);
            }
        } else {
            if c < keys.len() {
                assert(due(keys, c) >= keys[c as int]);
            }
        }
    }
}

/// Whatever the distances, sorted or not: entry `c` takes effect at exactly
/// one distance, `due(keys, c)` — its own distance, or later when the entries
/// before it still take effect — and at every other distance some other entry
/// or none does.
pub proof fn lemma_entry_takes_effect_when_due(keys: Seq<usize>, i: nat, c: nat)
    requires
        keys.len() <= usize::MAX,
        c < keys.len(),
        i >= 1,
    ensures
        entry_at(keys, i) == Some(c as usize) <==> due(keys, c) == i,
{
    lemma_taken_is_due_count(keys, i);
    lemma_taken_is_due_count(keys, (i - 1) as nat);
    let p = taken(keys, (i - 1) as nat);
    let q = taken(keys, i);
    if due(keys, c) == i {
        if c < p {
            assert(due(keys, c) <= i - 1);
        }
        if c > p {
            lemma_due_increases(keys, p, c);
        }
        assert(c == p);
        if q == p {
            assert(due(keys, q) > i);
        }
    }
    if entry_at(keys, i) == Some(c as usize) {
        assert(q > p);
        assert(c == p);
        if due(keys, c) < i {
            assert(due(keys, c) > i - 1);
        }
    }
}

/// The walk up to the largest distance takes every entry exactly when the
/// last entry is due by then, sorted or not: out-of-order entries still take
/// effect, later, and their mass still leaves the distribution.
pub proof fn lemma_walk_takes_all_when_due(keys: Seq<usize>)
    requires
        keys.len() > 0,
    ensures
        taken(keys, max_distance(keys)) == keys.len() <==> due(keys, (keys.len() - 1) as nat)
            <= max_distance(keys),
{
    let m = max_distance(keys);
    let n = keys.len();
    lemma_taken_is_due_count(keys, m);
    let t = taken(keys, m);
    if t < n {
        if t < n - 1 {
            lemma_due_increases(keys, t, (n - 1) as nat);
        }
    } else {
        assert(due(keys, (n - 1) as nat) <= m);
    }
}

} // verus!

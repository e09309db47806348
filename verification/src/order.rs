//! Stable ordering by a key.
use vstd::prelude::*;

verus! {

/// `p` lists the positions of `keys` in stable order: by key, and among equal
/// keys by position. Every position occurs, since the pairs strictly increase.
pub open spec fn is_stable_order(keys: Seq<usize>, p: Seq<usize>) -> bool {
    &&& p.len() == keys.len()
    &&& forall|i: int| 0 <= i < p.len() ==> #[trigger] p[i] < keys.len()
    &&& forall|i: int, j: int|
        0 <= i < j < p.len() ==> keys[#[trigger] p[i] as int] < keys[#[trigger] p[j] as int] || (
        keys[p[i] as int] == keys[p[j] as int] && p[i] < p[j])
}

/// The positions of `keys` in stable order, as a stable sort by key
/// (`slice::sort_by_key`) would move them.
pub fn stable_order(keys: &Vec<usize>) -> (p: Vec<usize>)
    ensures
        is_stable_order(keys@, p@),
{
    let n = keys.len();
    let mut p: Vec<usize> = Vec::new();
    let mut i: usize = 0;
    while i < n
        invariant
            i <= n == keys@.len(),
            is_stable_order(keys@.take(i as int), p@),
            forall|j: int| 0 <= j < p@.len() ==> #[trigger] p@[j] < i,
        decreases n - i,
    {
        let k = keys[i];
        let mut pos: usize = 0;
        while pos < p.len() && keys[p[pos]] <= k
            invariant
                i < n == keys@.len(),
                pos <= p@.len() == i,
                forall|j: int| 0 <= j < p@.len() ==> #[trigger] p@[j] < i,
                forall|j: int| 0 <= j < pos ==> keys@[#[trigger] p@[j] as int] <= k,
            decreases p@.len() - pos,
        {
            pos = pos + 1;
        }
        let ghost old_p = p@;
        proof {
            let t = keys@.take(i as int);
            assert forall|a: int, b: int| 0 <= a < b < old_p.len() implies keys@[#[trigger] old_p[a] as int]
                < keys@[#[trigger] old_p[b] as int] || (keys@[old_p[a] as int] == keys@[old_p[b] as int]
                && old_p[a] < old_p[b]) by {
                assert(t[old_p[a] as int] == keys@[old_p[a] as int]);
                assert(t[old_p[b] as int] == keys@[old_p[b] as int]);
            }
            // everything from `pos` on has a larger key
            assert forall|j: int| pos <= j < old_p.len() implies keys@[#[trigger] old_p[j] as int] > k by {
                if j > pos {
                    assert(keys@[old_p[pos as int] as int] <= keys@[old_p[j] as int]);
                }
            }
        }
        p.insert(pos, i);
        proof {
            let t2 = keys@.take(i + 1);
            let np = p@;
            assert(np == old_p.insert(pos as int, i));
            assert forall|j: int| 0 <= j < np.len() implies #[trigger] np[j] < i + 1 by {
                if j < pos {
                    assert(np[j] == old_p[j]);
                } else if j > pos {
                    assert(np[j] == old_p[j - 1]);
                }
            }
            assert forall|a: int, b: int| 0 <= a < b < np.len() implies t2[#[trigger] np[a] as int]
                < t2[#[trigger] np[b] as int] || (t2[np[a] as int] == t2[np[b] as int] && np[a]
                < np[b]) by {
                assert(t2[np[a] as int] == keys@[np[a] as int]);
                assert(t2[np[b] as int] == keys@[np[b] as int]);
                if a < pos && b < pos {
                    assert(np[a] == old_p[a] && np[b] == old_p[b]);
                } else if a < pos && b == pos {
                    assert(np[a] == old_p[a]);
                } else if a < pos && b > pos {
                    assert(np[a] == old_p[a] && np[b] == old_p[b - 1]);
                    assert(keys@[old_p[a] as int] <= k);
                } else if a == pos {
                    assert(np[b] == old_p[b - 1]);
                } else {
                    assert(np[a] == old_p[a - 1] && np[b] == old_p[b - 1]);
                }
            }
        }
        i = i + 1;
    }
    assert(keys@.take(n as int) =~= keys@);
    p
}


/// `q` is one of the positions that `p` lists.
pub open spec fn occurs_in(p: Seq<usize>, q: int) -> bool {
    exists|j: int| 0 <= j < p.len() && p[j] == q
}

/// A stable order is a permutation: every position occurs in it exactly once.
pub proof fn lemma_stable_order_is_permutation(keys: Seq<usize>, p: Seq<usize>)
    requires
        is_stable_order(keys, p),
    ensures
        forall|a: int, b: int| 0 <= a < b < p.len() ==> #[trigger] p[a] != #[trigger] p[b],
        forall|q: int| 0 <= q < keys.len() ==> #[trigger] occurs_in(p, q),
{
    let n = keys.len() as int;
    let ps = p.map_values(|x: usize| x as int);
    assert forall|a: int, b: int| 0 <= a < b < p.len() implies #[trigger] p[a] != #[trigger] p[b] by {
        assert(keys[p[a] as int] < keys[p[b] as int] || p[a] < p[b]);
    }
    assert(ps.no_duplicates()) by {
        assert forall|a: int, b: int| 0 <= a < ps.len() && 0 <= b < ps.len() && a != b implies ps[a]
            != ps[b] by {
            if a < b {
                assert(p[a] != p[b]);
            } else {
                assert(p[b] != p[a]);
            }
        }
    }
    ps.unique_seq_to_set();
    let range = vstd::set_lib::set_int_range(0, n);
    vstd::set_lib::lemma_int_range(0, n);
    assert(ps.to_set().subset_of(range)) by {
        assert forall|x: int| ps.to_set().contains(x) implies range.contains(x) by {
            let j = choose|j: int| 0 <= j < ps.len() && ps[j] == x;
            assert(p[j] < keys.len());
        }
    }
    vstd::set_lib::lemma_len_subset(ps.to_set(), range);
    vstd::set_lib::lemma_subset_equality(ps.to_set(), range);
    assert forall|q: int| 0 <= q < keys.len() implies #[trigger] occurs_in(p, q) by {
        assert(range.contains(q));
        assert(ps.to_set().contains(q));
        let j = choose|j: int| 0 <= j < ps.len() && ps[j] == q;
        assert(p[j] == q);
    }
}

} // verus!

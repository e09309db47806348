//! The calls into `rayon` that the histogram reader makes.
use vstd::prelude::*;
use rayon::iter::ParallelIterator;
use rayon::slice::ParallelSliceMut;
use rayon::str::ParallelString;
use crate::merge::sorted_by_distance;
use crate::text::{newline_pieces, strip_cr};

verus! {

/// The lines of `s` as `rayon`'s `par_lines` gives them: the pieces that a
/// `'\n'` ends, each without one trailing carriage return, even the last.
pub open spec fn parallel_lines(s: Seq<char>) -> Seq<Seq<char>> {
    newline_pieces(s).map_values(|l: Seq<char>| strip_cr(l))
}

/// The entries with each count text taken by its characters.
pub open spec fn view_entries(s: Seq<(usize, Vec<char>)>) -> Seq<(usize, Seq<char>)> {
    s.map_values(|x: (usize, Vec<char>)| (x.0, x.1@))
}

/// Calls `rayon::str::ParallelString::par_lines` and collects the lines in
/// order. Claimed: the lines are the pieces of `text` that `'\n'` ends (the
/// last one may end the text instead; no empty piece follows a final
/// `'\n'`), each without one trailing `'\r'`, as rayon's `par_split_terminator`
/// and `no_carriage_return` compute them.
#[verifier::external_body]
pub(crate) fn par_lines_of(text: &str) -> (r: Vec<&str>)
    ensures
        r@.len() == parallel_lines(text@).len(),
        forall|k: int| 0 <= k < r@.len() ==> #[trigger] r@[k]@ == parallel_lines(text@)[k],
{
    text.par_lines().collect()
}

/// Calls `rayon::slice::ParallelSliceMut::par_sort_unstable_by_key` with the
/// distance as the key. Claimed: the entries after the call are those before
/// it, in an order whose distances never decrease; the order of entries with
/// one distance is left open, as rayon's documentation leaves it.
#[verifier::external_body]
pub(crate) fn par_sort_by_distance(v: &mut Vec<(usize, Vec<char>)>)
    ensures
        view_entries(final(v)@).to_multiset() == view_entries(old(v)@).to_multiset(),
        final(v)@.len() == old(v)@.len(),
        sorted_by_distance(final(v)@),
{
    v.par_sort_unstable_by_key(|x| x.0);
}

} // verus!

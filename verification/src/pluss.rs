//! Reading the reuse-distance histograms that PLUSS dumps: one
//! `distance, count` pair per line.
use vstd::prelude::*;
use crate::fields::{pair_line, parse_pair_line, FieldError};
use crate::merge::{flatten, lemma_sorted_groups_increase, merge_overlapped, sorted_by_distance};
use crate::parallel::{par_lines_of, par_sort_by_distance, parallel_lines, view_entries};
use crate::text::{chars_of, contains_char};

verus! {

/// The entries that the data lines give, in line order: a line is a data
/// line when it holds a comma, and it gives an entry when it reads as
/// `distance, count`.
pub open spec fn accepted_entries(lines: Seq<Seq<char>>) -> Seq<(usize, Seq<char>)>
    decreases lines.len(),
{
    if lines.len() == 0 {
        Seq::empty()
    } else {
        let prev = accepted_entries(lines.drop_last());
        let l = lines.last();
        if l.contains(',') {
            match pair_line(l) {
                Ok(x) => prev.push(x),
                Err(_) => prev,
            }
        } else {
            prev
        }
    }
}

/// The data lines that do not read as `distance, count`, each with its
/// index among all lines and why it was refused.
pub open spec fn rejected_lines(lines: Seq<Seq<char>>) -> Seq<(usize, FieldError)>
    decreases lines.len(),
{
    if lines.len() == 0 {
        Seq::empty()
    } else {
        let prev = rejected_lines(lines.drop_last());
        let l = lines.last();
        if l.contains(',') {
            match pair_line(l) {
                Ok(_) => prev,
                Err(e) => prev.push(((lines.len() - 1) as usize, e)),
            }
        } else {
            prev
        }
    }
}

/// A reuse-distance histogram as read from text: each bin holds a distance
/// and the count texts of all the lines with that distance.
pub struct DumpedData {
    /// The bins, by strictly increasing distance.
    pub data: Vec<(usize, Vec<Vec<char>>)>,
    /// The data lines that were refused, by line index.
    pub rejected: Vec<(usize, FieldError)>,
}

/// The entries and the refused lines of `lines`.
fn read_pairs(lines: &Vec<&str>) -> (r: (Vec<(usize, Vec<char>)>, Vec<(usize, FieldError)>))
    ensures
        view_entries(r.0@) == accepted_entries(lines@.map_values(|l: &str| l@)),
        r.1@ == rejected_lines(lines@.map_values(|l: &str| l@)),
{
    let ghost ls = lines@.map_values(|l: &str| l@);
    let mut entries: Vec<(usize, Vec<char>)> = Vec::new();
    let mut rejected: Vec<(usize, FieldError)> = Vec::new();
    let mut i: usize = 0;
    assert(ls.take(0) =~= Seq::<Seq<char>>::empty());
    while i < lines.len()
        invariant
            i <= lines@.len() == ls.len(),
            ls == lines@.map_values(|l: &str| l@),
            view_entries(entries@) == accepted_entries(ls.take(i as int)),
            rejected@ == rejected_lines(ls.take(i as int)),
        decreases lines@.len() - i,
    {
        let line = chars_of(lines[i]);
        assert(ls.take(i + 1).drop_last() =~= ls.take(i as int));
        assert(ls.take(i + 1).last() == line@);
        if contains_char(line.as_slice(), ',') {
            match parse_pair_line(line.as_slice()) {
                Ok(x) => {
                    let ghost old_entries = entries@;
                    entries.push(x);
                    assert(view_entries(entries@) =~= view_entries(old_entries).push((x.0, x.1@)));
                },
                Err(e) => {
                    rejected.push((i, e));
                },
            }
        }
        i = i + 1;
    }
    assert(ls.take(lines@.len() as int) =~= ls);
    (entries, rejected)
}

impl DumpedData {
    /// Reads a histogram: the data lines of `text` in parallel, then the
    /// entries sorted by distance, and the entries of one distance merged
    /// into one bin. Refused lines are kept aside.
    pub fn new(text: &str) -> (r: DumpedData)
        ensures
            r.rejected@ == rejected_lines(parallel_lines(text@)),
            view_entries(flatten(r.data@)).to_multiset() == accepted_entries(
                parallel_lines(text@),
            ).to_multiset(),
            sorted_by_distance(flatten(r.data@)),
            forall|i: int| 0 <= i < r.data@.len() ==> (#[trigger] r.data@[i]).1@.len() > 0,
            forall|i: int, j: int|
                0 <= i < j < r.data@.len() ==> (#[trigger] r.data@[i]).0 < (#[trigger] r.data@[j]).0,
    {
        let lines = par_lines_of(text);
        assert(lines@.map_values(|l: &str| l@) =~= parallel_lines(text@));
        let (mut entries, rejected) = read_pairs(&lines);
        par_sort_by_distance(&mut entries);
        let ghost sorted = entries@;
        let data = merge_overlapped(entries);
        proof {
            lemma_sorted_groups_increase(sorted, data@);
        }
        DumpedData { data, rejected }
    }
}

/// The miss ratio samples of a text, each line `size, ratio`.
pub struct MissRatio {
    /// The samples in line order.
    pub data: Vec<(usize, Vec<char>)>,
}

impl MissRatio {
    /// Reads the samples of `text`; any data line that does not read as
    /// `size, ratio` refuses the whole text, and all such lines are returned.
    pub fn new(text: &str) -> (r: Result<MissRatio, Vec<(usize, FieldError)>>)
        ensures
            match r {
                Ok(m) => rejected_lines(parallel_lines(text@)).len() == 0 && view_entries(m.data@)
                    == accepted_entries(parallel_lines(text@)),
                Err(rej) => rej@ == rejected_lines(parallel_lines(text@)) && rej@.len() > 0,
            },
    {
        let lines = par_lines_of(text);
        assert(lines@.map_values(|l: &str| l@) =~= parallel_lines(text@));
        let (entries, rejected) = read_pairs(&lines);
        if rejected.len() == 0 {
            Ok(MissRatio { data: entries })
        } else {
            Err(rejected)
        }
    }
}


/// Reading lines one after another gives the entries of each part in turn:
/// the entries of `a + b` are those of `a` followed by those of `b`. In
/// particular every data line that reads yields its entry, the last line
/// included, and a single line `l` yields exactly its own entry.
pub proof fn lemma_accepted_entries_concat(a: Seq<Seq<char>>, b: Seq<Seq<char>>)
    ensures
        accepted_entries(a + b) == accepted_entries(a) + accepted_entries(b),
    decreases b.len(),
{
    if b.len() == 0 {
        assert(a + b =~= a);
        assert(accepted_entries(a) + accepted_entries(b) =~= accepted_entries(a));
    } else {
        lemma_accepted_entries_concat(a, b.drop_last());
        assert((a + b).drop_last() =~= a + b.drop_last());
        assert((a + b).last() == b.last());
        let l = b.last();
        if l.contains(',') {
            match pair_line(l) {
                Ok(x) => {
                    assert(accepted_entries(a) + accepted_entries(b) =~= accepted_entries(a)
                        + accepted_entries(b.drop_last()) + seq![x]);
                },
                Err(_) => {},
            }
        }
    }
}

/// A single line yields its entry exactly when it is a data line that reads
/// as `distance, count`.
pub proof fn lemma_accepted_entries_single(l: Seq<char>)
    ensures
        accepted_entries(seq![l]) == if l.contains(',') && pair_line(l) is Ok {
            seq![pair_line(l)->Ok_0]
        } else {
            Seq::empty()
        },
{
    assert(seq![l].drop_last() =~= Seq::<Seq<char>>::empty());
    assert(seq![l].last() == l);
    assert(accepted_entries(Seq::<Seq<char>>::empty()) =~= Seq::empty());
    if l.contains(',') && pair_line(l) is Ok {
        assert(Seq::<(usize, Seq<char>)>::empty().push(pair_line(l)->Ok_0) =~= seq![pair_line(l)->Ok_0]);
    }
}

} // verus!

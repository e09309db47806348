//! Reading the dumps with a shared and a private section: section headers,
//! then one `distance, count, ratio` triple per line.
use vstd::prelude::*;
use crate::fields::{parse_triple_line, triple_line, FieldError};
use crate::order::{is_stable_order, stable_order};
use crate::text::{chars_of, lines, std_lines, trim, trimmed, views_match};

verus! {

/// A triple as read: the distance and the texts of the two float fields.
pub type RawTriple = (usize, Vec<char>, Vec<char>);

/// A triple by the characters of its texts.
pub open spec fn triple_view(t: RawTriple) -> (usize, Seq<char>, Seq<char>) {
    (t.0, t.1@, t.2@)
}

pub open spec fn starts_with(s: Seq<char>, w: Seq<char>) -> bool {
    s.len() >= w.len() && s.take(w.len() as int) == w
}

pub open spec fn start_word() -> Seq<char> {
    seq!['S', 't', 'a', 'r', 't']
}

pub open spec fn no_share_word() -> Seq<char> {
    seq!['N', 'o', ' ', 's', 'h', 'a', 'r', 'e']
}

pub open spec fn share_word() -> Seq<char> {
    seq!['S', 'h', 'a', 'r', 'e']
}

/// What the lines `lines` give, read in order: the private triples, the
/// shared triples, and whether a following triple is shared; or the first
/// line that does not read, with its index. A line that starts with `Start`
/// is skipped, `No share` opens the private section and `Share` the shared
/// one; the private section is open at first.
pub open spec fn dump_of(lines: Seq<Seq<char>>) -> Result<
    (Seq<(usize, Seq<char>, Seq<char>)>, Seq<(usize, Seq<char>, Seq<char>)>, bool),
    (usize, FieldError),
>
    decreases lines.len(),
{
    if lines.len() == 0 {
        Ok((Seq::empty(), Seq::empty(), false))
    } else {
        match dump_of(lines.drop_last()) {
            Err(e) => Err(e),
            Ok((local, shared, in_shared)) => {
                let l = lines.last();
                if starts_with(l, start_word()) {
                    Ok((local, shared, in_shared))
                } else if starts_with(l, no_share_word()) {
                    Ok((local, shared, false))
                } else if starts_with(l, share_word()) {
                    Ok((local, shared, true))
                } else {
                    match triple_line(l) {
                        Err(e) => Err(((lines.len() - 1) as usize, e)),
                        Ok(t) => if in_shared {
                            Ok((local, shared.push(t), true))
                        } else {
                            Ok((local.push(t), shared, false))
                        },
                    }
                }
            },
        }
    }
}

proof fn lemma_error_persists(lines: Seq<Seq<char>>, k: int, m: int)
    requires
        0 <= k <= m <= lines.len(),
        dump_of(lines.take(k)) is Err,
    ensures
        dump_of(lines.take(m)) == dump_of(lines.take(k)),
    decreases m - k,
{
    if m > k {
        lemma_error_persists(lines, k, m - 1);
        assert(lines.take(m).drop_last() =~= lines.take(m - 1));
    }
}

/// `out` holds the triples `inp` stably sorted by distance.
pub open spec fn stably_sorted(
    out: Seq<(usize, Seq<char>, Seq<char>)>,
    inp: Seq<(usize, Seq<char>, Seq<char>)>,
) -> bool {
    exists|p: Seq<usize>|
        is_stable_order(inp.map_values(|t: (usize, Seq<char>, Seq<char>)| t.0), p) && out.len()
            == p.len() && forall|i: int| 0 <= i < out.len() ==> #[trigger] out[i] == inp[p[i] as int]
}

/// The private and the shared triples of a dump, each sorted by distance.
pub struct DumppedData {
    pub local: Vec<RawTriple>,
    pub shared: Vec<RawTriple>,
}

fn word_at_start(s: &[char], w: &[char]) -> (b: bool)
    ensures
        b == starts_with(s@, w@),
{
    if s.len() < w.len() {
        return false;
    }
    let mut k: usize = 0;
    while k < w.len()
        invariant
            k <= w@.len() <= s@.len(),
            forall|j: int| 0 <= j < k ==> s@[j] == w@[j],
        decreases w@.len() - k,
    {
        if s[k] != w[k] {
            assert(s@.take(w@.len() as int)[k as int] != w@[k as int]);
            return false;
        }
        k = k + 1;
    }
    assert(s@.take(w@.len() as int) =~= w@);
    true
}

fn clone_triple(t: &RawTriple) -> (r: RawTriple)
    ensures
        triple_view(r) == triple_view(*t),
{
    (t.0, t.1.clone(), t.2.clone())
}

/// The triples `v` stably sorted by distance.
fn sort_triples(v: &Vec<RawTriple>) -> (r: Vec<RawTriple>)
    ensures
        stably_sorted(r@.map_values(|t: RawTriple| triple_view(t)), v@.map_values(|t: RawTriple| triple_view(t))),
{
    let ghost inp = v@.map_values(|t: RawTriple| triple_view(t));
    let mut keys: Vec<usize> = Vec::new();
    let mut i: usize = 0;
    while i < v.len()
        invariant
            i <= v@.len(),
            keys@.len() == i,
            forall|j: int| 0 <= j < i ==> #[trigger] keys@[j] == v@[j].0,
        decreases v@.len() - i,
    {
        keys.push(v[i].0);
        i = i + 1;
    }
    assert(keys@ =~= inp.map_values(|t: (usize, Seq<char>, Seq<char>)| t.0));
    let p = stable_order(&keys);
    let mut r: Vec<RawTriple> = Vec::new();
    let mut k: usize = 0;
    while k < p.len()
        invariant
            is_stable_order(keys@, p@),
            keys@.len() == v@.len(),
            inp == v@.map_values(|t: RawTriple| triple_view(t)),
            k <= p@.len(),
            r@.len() == k,
            forall|j: int| 0 <= j < k ==> #[trigger] triple_view(r@[j]) == inp[p@[j] as int],
        decreases p@.len() - k,
    {
        assert(p@[k as int] < v@.len());
        let t = clone_triple(&v[p[k]]);
        r.push(t);
        k = k + 1;
    }
    let ghost out = r@.map_values(|t: RawTriple| triple_view(t));
    assert(forall|j: int| 0 <= j < out.len() ==> #[trigger] out[j] == inp[p@[j] as int]);
    r
}

impl DumppedData {
    /// Reads a dump from `text`: the lines of the trimmed text in order, as
    /// `dump_of` says, then each section stably sorted by distance. The first
    /// line that does not read refuses the whole text.
    pub fn new(text: &str) -> (r: Result<DumppedData, (usize, FieldError)>)
        ensures
            match r {
                Ok(d) => match dump_of(std_lines(trimmed(text@))) {
                    Ok((local, shared, _)) => stably_sorted(
                        d.local@.map_values(|t: RawTriple| triple_view(t)),
                        local,
                    ) && stably_sorted(d.shared@.map_values(|t: RawTriple| triple_view(t)), shared),
                    Err(_) => false,
                },
                Err(e) => dump_of(std_lines(trimmed(text@))) == Err::<
                    (Seq<(usize, Seq<char>, Seq<char>)>, Seq<(usize, Seq<char>, Seq<char>)>, bool),
                    (usize, FieldError),
                >(e),
            },
    {
        let chars = chars_of(text);
        let body = trim(chars.as_slice());
        let ls = lines(body.as_slice());
        let ghost lv = std_lines(trimmed(text@));
        let start: [char; 5] = ['S', 't', 'a', 'r', 't'];
        let no_share: [char; 8] = ['N', 'o', ' ', 's', 'h', 'a', 'r', 'e'];
        let share: [char; 5] = ['S', 'h', 'a', 'r', 'e'];
        assert(start@ =~= start_word());
        assert(no_share@ =~= no_share_word());
        assert(share@ =~= share_word());
        let mut local: Vec<RawTriple> = Vec::new();
        let mut shared: Vec<RawTriple> = Vec::new();
        let mut in_shared = false;
        let mut i: usize = 0;
        assert(lv.take(0) =~= Seq::<Seq<char>>::empty());
        assert(local@.map_values(|t: RawTriple| triple_view(t)) =~= Seq::empty());
        assert(shared@.map_values(|t: RawTriple| triple_view(t)) =~= Seq::empty());
        while i < ls.len()
            invariant
                views_match(ls@, lv),
                lv == std_lines(trimmed(text@)),
                i <= ls@.len(),
                start@ == start_word(),
                no_share@ == no_share_word(),
                share@ == share_word(),
                dump_of(lv.take(i as int)) == Ok::<
                    (Seq<(usize, Seq<char>, Seq<char>)>, Seq<(usize, Seq<char>, Seq<char>)>, bool),
                    (usize, FieldError),
                >(
                    (
                        local@.map_values(|t: RawTriple| triple_view(t)),
                        shared@.map_values(|t: RawTriple| triple_view(t)),
                        in_shared,
                    ),
                ),
            decreases ls@.len() - i,
        {
            let line = ls[i].as_slice();
            let ghost prefix = lv.take(i + 1);
            assert(prefix.drop_last() =~= lv.take(i as int));
            assert(prefix.last() == line@);
            let ghost old_local = local@;
            let ghost old_shared = shared@;
            if word_at_start(line, &start) {
            } else if word_at_start(line, &no_share) {
                in_shared = false;
            } else if word_at_start(line, &share) {
                in_shared = true;
            } else {
                match parse_triple_line(line) {
                    Err(e) => {
                        proof {
                            assert(!starts_with(prefix.last(), start_word()));
                            assert(!starts_with(prefix.last(), no_share_word()));
                            assert(!starts_with(prefix.last(), share_word()));
                            assert(dump_of(prefix) == Err::<
                                (Seq<(usize, Seq<char>, Seq<char>)>, Seq<(usize, Seq<char>, Seq<char>)>, bool),
                                (usize, FieldError),
                            >((i, e)));
                            lemma_error_persists(lv, i + 1, lv.len() as int);
                            assert(lv.take(lv.len() as int) =~= lv);
                            assert(dump_of(lv) == Err::<
                                (Seq<(usize, Seq<char>, Seq<char>)>, Seq<(usize, Seq<char>, Seq<char>)>, bool),
                                (usize, FieldError),
                            >((i, e)));
                        }
                        return Err((i, e));
                    },
                    Ok(t) => {
                        if in_shared {
                            shared.push(t);
                            assert(shared@.map_values(|t: RawTriple| triple_view(t)) =~= old_shared.map_values(
                                |t: RawTriple| triple_view(t),
                            ).push(triple_view(t)));
                        } else {
                            local.push(t);
                            assert(local@.map_values(|t: RawTriple| triple_view(t)) =~= old_local.map_values(
                                |t: RawTriple| triple_view(t),
                            ).push(triple_view(t)));
                        }
                    },
                }
            }
            i = i + 1;
        }
        assert(lv.take(ls@.len() as int) =~= lv);
        let local = sort_triples(&local);
        let shared = sort_triples(&shared);
        Ok(DumppedData { local, shared })
    }
}

} // verus!

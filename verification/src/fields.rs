//! The comma-separated fields of a data line.
use vstd::prelude::*;
use crate::num::{is_float_literal, is_float_text, parse_usize, usize_of, IntErrorKind};
use crate::text::{
    lemma_split_at_first_comma, lemma_split_no_comma, lemma_trimmed_line_pieces, split_char,
    split_on, trim, trimmed, views_match,
};

verus! {

/// Why a data line was refused.
#[derive(Debug, Clone, Copy, PartialEq, Eq, Structural)]
pub enum FieldError {
    /// The line has fewer fields than the format asks for.
    Missing,
    /// The distance field is not an unsigned integer.
    Int(IntErrorKind),
    /// A count field is not a float literal.
    Float,
}

/// The text that is split into fields: the trimmed line, or the line as is.
pub open spec fn field_text(line: Seq<char>, trim_line: bool) -> Seq<char> {
    if trim_line {
        trimmed(line)
    } else {
        line
    }
}

/// The trimmed `i`-th comma-separated field of the line, if there is one.
pub open spec fn field(line: Seq<char>, trim_line: bool, i: int) -> Option<Seq<char>> {
    let parts = split_on(field_text(line, trim_line), ',');
    if 0 <= i < parts.len() {
        Some(trimmed(parts[i]))
    } else {
        None
    }
}

/// The distance that the first field of `line` gives.
pub open spec fn distance_field(line: Seq<char>, trim_line: bool) -> Result<usize, FieldError> {
    match usize_of(field(line, trim_line, 0).unwrap()) {
        Ok(d) => Ok(d),
        Err(e) => Err(FieldError::Int(e)),
    }
}

/// The `i`-th field of `line` when it is a float literal.
pub open spec fn float_field(line: Seq<char>, trim_line: bool, i: int) -> Result<
    Seq<char>,
    FieldError,
> {
    match field(line, trim_line, i) {
        None => Err(FieldError::Missing),
        Some(f) => if is_float_literal(f) {
            Ok(f)
        } else {
            Err(FieldError::Float)
        },
    }
}

/// A line `distance, count`, trimmed before it is split: the fields are read
/// in order, and the first that fails decides the error; fields after the
/// second are ignored.
pub open spec fn pair_line(line: Seq<char>) -> Result<(usize, Seq<char>), FieldError> {
    match distance_field(line, true) {
        Err(e) => Err(e),
        Ok(d) => match float_field(line, true, 1) {
            Err(e) => Err(e),
            Ok(c) => Ok((d, c)),
        },
    }
}

/// A line `distance, a, b`, split as it is (each field is still trimmed)
/// and read field by field as `pair_line` reads its fields.
pub open spec fn triple_line(line: Seq<char>) -> Result<(usize, Seq<char>, Seq<char>), FieldError> {
    match distance_field(line, false) {
        Err(e) => Err(e),
        Ok(d) => match float_field(line, false, 1) {
            Err(e) => Err(e),
            Ok(a) => match float_field(line, false, 2) {
                Err(e) => Err(e),
                Ok(b) => Ok((d, a, b)),
            },
        },
    }
}

/// The trimmed fields of the line, trimmed first when `trim_line` says so.
fn fields_of(line: &[char], trim_line: bool) -> (r: Vec<Vec<char>>)
    ensures
        r@.len() == split_on(field_text(line@, trim_line), ',').len(),
        forall|i: int| 0 <= i < r@.len() ==> #[trigger] field(line@, trim_line, i) == Some(r@[i]@),
{
    let parts = if trim_line {
        let t = trim(line);
        split_char(t.as_slice(), ',')
    } else {
        split_char(line, ',')
    };
    let mut r: Vec<Vec<char>> = Vec::new();
    let mut i: usize = 0;
    while i < parts.len()
        invariant
            views_match(parts@, split_on(field_text(line@, trim_line), ',')),
            i <= parts@.len(),
            r@.len() == i,
            forall|j: int| 0 <= j < i ==> #[trigger] field(line@, trim_line, j) == Some(r@[j]@),
        decreases parts@.len() - i,
    {
        let f = trim(parts[i].as_slice());
        r.push(f);
        i = i + 1;
    }
    r
}

fn distance_of(f: &Vec<Vec<char>>) -> (r: Result<usize, FieldError>)
    requires
        f@.len() >= 1,
    ensures
        r == (match usize_of(f@[0]@) {
            Ok(d) => Ok(d),
            Err(e) => Err(FieldError::Int(e)),
        }),
{
    match parse_usize(f[0].as_slice()) {
        Ok(d) => Ok(d),
        Err(e) => Err(FieldError::Int(e)),
    }
}

fn float_of(f: &Vec<Vec<char>>, i: usize) -> (r: Result<Vec<char>, FieldError>)
    ensures
        i >= f@.len() ==> r == Err::<Vec<char>, FieldError>(FieldError::Missing),
        i < f@.len() ==> match r {
            Ok(c) => c@ == f@[i as int]@ && is_float_literal(c@),
            Err(e) => e == FieldError::Float && !is_float_literal(f@[i as int]@),
        },
{
    if i >= f.len() {
        return Err(FieldError::Missing);
    }
    if is_float_text(f[i].as_slice()) {
        Ok(f[i].clone())
    } else {
        Err(FieldError::Float)
    }
}

/// Reads a line `distance, count`.
pub fn parse_pair_line(line: &[char]) -> (r: Result<(usize, Vec<char>), FieldError>)
    ensures
        match r {
            Ok(x) => pair_line(line@) == Ok::<(usize, Seq<char>), FieldError>((x.0, x.1@)),
            Err(e) => pair_line(line@) == Err::<(usize, Seq<char>), FieldError>(e),
        },
{
    let f = fields_of(line, true);
    proof {
        crate::text::lemma_split_on_nonempty(trimmed(line@), ',');
        assert(field(line@, true, 0) == Some(f@[0]@));
    }
    let d = distance_of(&f)?;
    let c = float_of(&f, 1);
    proof {
        if 1 < f@.len() {
            assert(field(line@, true, 1) == Some(f@[1]@));
        }
    }
    let c = c?;
    Ok((d, c))
}

/// Reads a line `distance, a, b`.
pub fn parse_triple_line(line: &[char]) -> (r: Result<(usize, Vec<char>, Vec<char>), FieldError>)
    ensures
        match r {
            Ok(x) => triple_line(line@) == Ok::<(usize, Seq<char>, Seq<char>), FieldError>(
                (x.0, x.1@, x.2@),
            ),
            Err(e) => triple_line(line@) == Err::<(usize, Seq<char>, Seq<char>), FieldError>(e),
        },
{
    let f = fields_of(line, false);
    proof {
        crate::text::lemma_split_on_nonempty(line@, ',');
        assert(field(line@, false, 0) == Some(f@[0]@));
        if 1 < f@.len() {
            assert(field(line@, false, 1) == Some(f@[1]@));
        }
        if 2 < f@.len() {
            assert(field(line@, false, 2) == Some(f@[2]@));
        }
    }
    let d = distance_of(&f)?;
    let a = float_of(&f, 1)?;
    let b = float_of(&f, 2)?;
    Ok((d, a, b))
}


/// A line `a,b` or `a,b,rest` (with `a` and `b` free of commas, whatever
/// whitespace stands around them) reads as the distance that the trimmed `a`
/// gives and, as the count, the whole trimmed `b`: the first field decides
/// first, then `b` must be a float literal; anything after the second field
/// is ignored.
pub proof fn lemma_pair_line_reads_fields(a: Seq<char>, b: Seq<char>, tail: Seq<char>)
    requires
        !a.contains(','),
        !b.contains(','),
        tail.len() == 0 || tail[0] == ',',
    ensures
        pair_line(a + seq![','] + b + tail) == match usize_of(trimmed(a)) {
            Err(e) => Err(FieldError::Int(e)),
            Ok(d) => if is_float_literal(trimmed(b)) {
                Ok((d, trimmed(b)))
            } else {
                Err(FieldError::Float)
            },
        },
{
    lemma_trimmed_line_pieces(a, b, tail);
}

/// A line `a,b,c` or `a,b,c,rest` (with `a`, `b` and `c` free of commas)
/// reads as the distance of the trimmed `a` and the whole trimmed `b` and
/// `c`, checked in that order; a line with fewer than three fields misses
/// one.
pub proof fn lemma_triple_line_reads_fields(a: Seq<char>, b: Seq<char>, c: Seq<char>, tail: Seq<char>)
    requires
        !a.contains(','),
        !b.contains(','),
        !c.contains(','),
        tail.len() == 0 || tail[0] == ',',
    ensures
        triple_line(a + seq![','] + b + seq![','] + c + tail) == match usize_of(trimmed(a)) {
            Err(e) => Err(FieldError::Int(e)),
            Ok(d) => if !is_float_literal(trimmed(b)) {
                Err(FieldError::Float)
            } else if !is_float_literal(trimmed(c)) {
                Err(FieldError::Float)
            } else {
                Ok((d, trimmed(b), trimmed(c)))
            },
        },
        triple_line(a + seq![','] + b) == match usize_of(trimmed(a)) {
            Err(e) => Err::<(usize, Seq<char>, Seq<char>), FieldError>(FieldError::Int(e)),
            Ok(d) => if !is_float_literal(trimmed(b)) {
                Err(FieldError::Float)
            } else {
                Err(FieldError::Missing)
            },
        },
{
    let line = a + seq![','] + b + seq![','] + c + tail;
    assert(line =~= a + seq![','] + (b + seq![','] + (c + tail)));
    lemma_split_at_first_comma(a, b + seq![','] + (c + tail));
    lemma_split_at_first_comma(b, c + tail);
    if tail.len() == 0 {
        assert(c + tail =~= c);
        lemma_split_no_comma(c);
    } else {
        assert(c + tail =~= c + seq![','] + tail.drop_first());
        lemma_split_at_first_comma(c, tail.drop_first());
        crate::text::lemma_split_on_nonempty(tail.drop_first(), ',');
    }
    lemma_split_at_first_comma(a, b);
    lemma_split_no_comma(b);
}

} // verus!

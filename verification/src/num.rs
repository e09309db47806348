//! Recognising the numbers of a text field: unsigned integers as
//! `usize::from_str` reads them, and the float literals that `f64::from_str`
//! accepts.
use vstd::prelude::*;
use crate::text::{index_or_len, lemma_index_or_len};

verus! {

/// Why a field is not an unsigned integer, named as `std::num::IntErrorKind`.
#[derive(Debug, Clone, Copy, PartialEq, Eq, Structural)]
pub enum IntErrorKind {
    /// The field is empty.
    Empty,
    /// A character is not a decimal digit.
    InvalidDigit,
    /// The value does not fit in the integer type.
    PosOverflow,
}

pub open spec fn is_digit(c: char) -> bool {
    '0' as u32 <= c as u32 <= '9' as u32
}

pub open spec fn digit_value(c: char) -> nat {
    (c as u32 - '0' as u32) as nat
}

/// The decimal value of a run of digits.
pub open spec fn digits_value(d: Seq<char>) -> nat
    decreases d.len(),
{
    if d.len() == 0 {
        0
    } else {
        digits_value(d.drop_last()) * 10 + digit_value(d.last())
    }
}

pub open spec fn is_sign(c: char) -> bool {
    c == '+' || c == '-'
}

/// Reads the digits `d` from position `k` on, left to right: the first
/// character that is no digit, or the first digit after which the value read
/// so far exceeds `usize::MAX`, decides the error.
pub open spec fn scan_digits(d: Seq<char>, k: nat) -> Result<usize, IntErrorKind>
    decreases d.len() - k,
{
    if k >= d.len() {
        Ok(digits_value(d) as usize)
    } else if !is_digit(d[k as int]) {
        Err(IntErrorKind::InvalidDigit)
    } else if digits_value(d.take(k + 1 as int)) > usize::MAX {
        Err(IntErrorKind::PosOverflow)
    } else {
        scan_digits(d, k + 1)
    }
}

/// What `usize::from_str` gives for `s`: an optional `+`, then decimal digits.
pub open spec fn usize_of(s: Seq<char>) -> Result<usize, IntErrorKind> {
    if s.len() == 0 {
        Err(IntErrorKind::Empty)
    } else if s.len() == 1 && is_sign(s[0]) {
        Err(IntErrorKind::InvalidDigit)
    } else if s[0] == '+' {
        scan_digits(s.drop_first(), 0)
    } else {
        scan_digits(s, 0)
    }
}

proof fn lemma_digits_value_step(d: Seq<char>, k: int)
    requires
        0 <= k < d.len(),
    ensures
        digits_value(d.take(k + 1)) == digits_value(d.take(k)) * 10 + digit_value(d[k]),
{
    assert(d.take(k + 1).drop_last() =~= d.take(k));
}

fn is_digit_char(c: char) -> (b: bool)
    ensures
        b == is_digit(c),
{
    '0' as u32 <= c as u32 && c as u32 <= '9' as u32
}

/// Reads `d[start..]` as a run of decimal digits.
fn scan_from(d: &[char], start: usize) -> (r: Result<usize, IntErrorKind>)
    requires
        start <= d@.len(),
    ensures
        r == scan_digits(d@.skip(start as int), 0),
{
    let n = d.len();
    let ghost t = d@.skip(start as int);
    let mut k: usize = start;
    let mut acc: usize = 0;
    assert(t.take(0) =~= Seq::<char>::empty());
    while k < n
        invariant
            start <= k <= n == d@.len(),
            t == d@.skip(start as int),
            acc as nat == digits_value(t.take(k - start)),
            scan_digits(t, 0) == scan_digits(t, (k - start) as nat),
        decreases n - k,
    {
        let c = d[k];
        proof {
            assert(t[k - start] == c);
        }
        if !is_digit_char(c) {
            return Err(IntErrorKind::InvalidDigit);
        }
        proof {
            lemma_digits_value_step(t, (k - start) as int);
        }
        let dv: usize = (c as u32 - '0' as u32) as usize;
        let next = match acc.checked_mul(10) {
            Some(m) => m.checked_add(dv),
            None => None,
        };
        match next {
            Some(v) => {
                acc = v;
            },
            None => {
                proof {
                    assert(acc * 10 + dv > usize::MAX) by (nonlinear_arith)
                        requires
                            acc * 10 > usize::MAX || acc * 10 + dv > usize::MAX,
                    ;
                }
                return Err(IntErrorKind::PosOverflow);
            },
        }
        k = k + 1;
    }
    assert(t.take((n - start) as int) =~= t);
    Ok(acc)
}

/// Reads `s` as `usize::from_str` does.
pub fn parse_usize(s: &[char]) -> (r: Result<usize, IntErrorKind>)
    ensures
        r == usize_of(s@),
{
    let n = s.len();
    if n == 0 {
        return Err(IntErrorKind::Empty);
    }
    if n == 1 && (s[0] == '+' || s[0] == '-') {
        return Err(IntErrorKind::InvalidDigit);
    }
    if s[0] == '+' {
        assert(s@.skip(1) =~= s@.drop_first());
        scan_from(s, 1)
    } else {
        assert(s@.skip(0) =~= s@);
        scan_from(s, 0)
    }
}


pub open spec fn all_digits(s: Seq<char>) -> bool {
    forall|i: int| 0 <= i < s.len() ==> is_digit(#[trigger] s[i])
}

/// `s` equals the lower-case ASCII word `w` up to ASCII case.
pub open spec fn equals_ignoring_case(s: Seq<char>, w: Seq<char>) -> bool {
    &&& s.len() == w.len()
    &&& forall|i: int|
        0 <= i < s.len() ==> (#[trigger] s[i] == w[i] || s[i] as u32 + 32 == w[i] as u32)
}

/// The index of the first `'e'` or `'E'` in `s`, or `s.len()`.
pub open spec fn exponent_start(s: Seq<char>) -> int
    decreases s.len(),
{
    if s.len() == 0 {
        0
    } else if s[0] == 'e' || s[0] == 'E' {
        0
    } else {
        1 + exponent_start(s.drop_first())
    }
}

/// Digits with at most one `'.'` among them and at least one digit.
pub open spec fn is_mantissa(m: Seq<char>) -> bool {
    let p = index_or_len(m, '.');
    if p >= m.len() {
        m.len() > 0 && all_digits(m)
    } else {
        m.len() >= 2 && all_digits(m.take(p)) && all_digits(m.skip(p + 1))
    }
}

/// `e` or `E`, an optional sign, then at least one digit.
pub open spec fn is_exponent(e: Seq<char>) -> bool {
    &&& e.len() >= 2
    &&& (e[0] == 'e' || e[0] == 'E')
    &&& if is_sign(e[1]) {
        e.len() >= 3 && all_digits(e.skip(2))
    } else {
        all_digits(e.skip(1))
    }
}

/// A mantissa and an optional exponent.
pub open spec fn is_decimal(b: Seq<char>) -> bool {
    let q = exponent_start(b);
    is_mantissa(b.take(q)) && (q >= b.len() || is_exponent(b.skip(q)))
}

/// The words that name infinity and NaN.
pub open spec fn is_special_word(b: Seq<char>) -> bool {
    ||| equals_ignoring_case(b, seq!['i', 'n', 'f'])
    ||| equals_ignoring_case(b, seq!['i', 'n', 'f', 'i', 'n', 'i', 't', 'y'])
    ||| equals_ignoring_case(b, seq!['n', 'a', 'n'])
}

/// The grammar of the strings that `f64::from_str` accepts:
/// `Sign? ('inf' | 'infinity' | 'nan' | Number)`, where
/// `Number ::= (Digit+ | Digit+ '.' Digit* | Digit* '.' Digit+) Exp?`,
/// `Exp ::= 'e' Sign? Digit+`, and letters are read without regard to case.
pub open spec fn is_float_literal(s: Seq<char>) -> bool {
    let b = if s.len() > 0 && is_sign(s[0]) {
        s.drop_first()
    } else {
        s
    };
    is_special_word(b) || is_decimal(b)
}


proof fn lemma_exponent_start(s: Seq<char>, k: int)
    requires
        0 <= k <= s.len(),
        forall|j: int| 0 <= j < k ==> s[j] != 'e' && s[j] != 'E',
        k < s.len() ==> (s[k] == 'e' || s[k] == 'E'),
    ensures
        exponent_start(s) == k,
    decreases s.len(),
{
    if s.len() > 0 && k > 0 {
        lemma_exponent_start(s.drop_first(), k - 1);
    }
}

/// Whether every character of `s[lo..hi]` is a decimal digit.
fn digits_only(s: &[char], lo: usize, hi: usize) -> (b: bool)
    requires
        lo <= hi <= s@.len(),
    ensures
        b == all_digits(s@.subrange(lo as int, hi as int)),
{
    let mut k = lo;
    while k < hi
        invariant
            lo <= k <= hi <= s@.len(),
            forall|j: int| lo <= j < k ==> is_digit(#[trigger] s@[j]),
        decreases hi - k,
    {
        if !is_digit_char(s[k]) {
            assert(!is_digit(s@.subrange(lo as int, hi as int)[k - lo]));
            return false;
        }
        k = k + 1;
    }
    assert forall|i: int| 0 <= i < hi - lo implies is_digit(
        #[trigger] s@.subrange(lo as int, hi as int)[i],
    ) by {
        assert(s@.subrange(lo as int, hi as int)[i] == s@[lo + i]);
    }
    true
}

/// The position of the first `c` in `s[lo..hi]`, or `hi`.
fn find_char(s: &[char], lo: usize, hi: usize, c: char) -> (k: usize)
    requires
        lo <= hi <= s@.len(),
    ensures
        lo <= k <= hi,
        k - lo == index_or_len(s@.subrange(lo as int, hi as int), c),
{
    let mut k = lo;
    while k < hi && s[k] != c
        invariant
            lo <= k <= hi <= s@.len(),
            forall|j: int| lo <= j < k ==> s@[j] != c,
        decreases hi - k,
    {
        k = k + 1;
    }
    proof {
        let w = s@.subrange(lo as int, hi as int);
        assert forall|j: int| 0 <= j < k - lo implies w[j] != c by {
            assert(w[j] == s@[lo + j]);
        }
        lemma_index_or_len(w, c, k - lo);
    }
    k
}

/// The position of the first `'e'` or `'E'` in `s[lo..hi]`, or `hi`.
fn find_exponent(s: &[char], lo: usize, hi: usize) -> (k: usize)
    requires
        lo <= hi <= s@.len(),
    ensures
        lo <= k <= hi,
        k - lo == exponent_start(s@.subrange(lo as int, hi as int)),
{
    let mut k = lo;
    while k < hi && s[k] != 'e' && s[k] != 'E'
        invariant
            lo <= k <= hi <= s@.len(),
            forall|j: int| lo <= j < k ==> s@[j] != 'e' && s@[j] != 'E',
        decreases hi - k,
    {
        k = k + 1;
    }
    proof {
        let w = s@.subrange(lo as int, hi as int);
        assert forall|j: int| 0 <= j < k - lo implies w[j] != 'e' && w[j] != 'E' by {
            assert(w[j] == s@[lo + j]);
        }
        lemma_exponent_start(w, k - lo);
    }
    k
}

/// Whether `s[lo..hi]` is the lower-case ASCII word `w` up to ASCII case.
fn word_ignoring_case(s: &[char], lo: usize, hi: usize, w: &[char]) -> (b: bool)
    requires
        lo <= hi <= s@.len(),
    ensures
        b == equals_ignoring_case(s@.subrange(lo as int, hi as int), w@),
{
    if hi - lo != w.len() {
        return false;
    }
    let mut k: usize = 0;
    while k < w.len()
        invariant
            lo <= hi <= s@.len(),
            hi - lo == w@.len(),
            k <= w@.len(),
            forall|j: int|
                0 <= j < k ==> (#[trigger] s@[lo + j] == w@[j] || s@[lo + j] as u32 + 32 == w@[j] as u32),
        decreases w@.len() - k,
    {
        let a = s[lo + k];
        let b = w[k];
        if !(a == b || (a as u32) as u64 + 32 == (b as u32) as u64) {
            assert(s@.subrange(lo as int, hi as int)[k as int] == a);
            return false;
        }
        k = k + 1;
    }
    proof {
        let v = s@.subrange(lo as int, hi as int);
        assert forall|i: int| 0 <= i < v.len() implies (#[trigger] v[i] == w@[i] || v[i] as u32 + 32
            == w@[i] as u32) by {
            assert(v[i] == s@[lo + i]);
        }
    }
    true
}

/// Whether `s[lo..hi]` is a mantissa.
fn mantissa_in(s: &[char], lo: usize, hi: usize) -> (b: bool)
    requires
        lo <= hi <= s@.len(),
    ensures
        b == is_mantissa(s@.subrange(lo as int, hi as int)),
{
    let ghost m = s@.subrange(lo as int, hi as int);
    let p = find_char(s, lo, hi, '.');
    if p >= hi {
        hi > lo && digits_only(s, lo, hi)
    } else {
        assert(m.take(p - lo) =~= s@.subrange(lo as int, p as int));
        assert(m.skip(p - lo + 1) =~= s@.subrange(p + 1, hi as int));
        hi - lo >= 2 && digits_only(s, lo, p) && digits_only(s, p + 1, hi)
    }
}

/// Whether `s[lo..hi]` is an exponent.
fn exponent_in(s: &[char], lo: usize, hi: usize) -> (b: bool)
    requires
        lo <= hi <= s@.len(),
    ensures
        b == is_exponent(s@.subrange(lo as int, hi as int)),
{
    let ghost e = s@.subrange(lo as int, hi as int);
    if hi - lo < 2 || !(s[lo] == 'e' || s[lo] == 'E') {
        return false;
    }
    if s[lo + 1] == '+' || s[lo + 1] == '-' {
        assert(e.skip(2) =~= s@.subrange(lo + 2, hi as int));
        hi - lo >= 3 && digits_only(s, lo + 2, hi)
    } else {
        assert(e.skip(1) =~= s@.subrange(lo + 1, hi as int));
        digits_only(s, lo + 1, hi)
    }
}

/// Whether `s` is a float literal that `f64::from_str` accepts.
pub fn is_float_text(s: &[char]) -> (b: bool)
    ensures
        b == is_float_literal(s@),
{
    let n = s.len();
    let st: usize = if n > 0 && (s[0] == '+' || s[0] == '-') {
        1
    } else {
        0
    };
    let ghost b = s@.subrange(st as int, n as int);
    assert(b =~= (if s@.len() > 0 && is_sign(s@[0]) {
        s@.drop_first()
    } else {
        s@
    }));
    let inf: [char; 3] = ['i', 'n', 'f'];
    let infinity: [char; 8] = ['i', 'n', 'f', 'i', 'n', 'i', 't', 'y'];
    let nan: [char; 3] = ['n', 'a', 'n'];
    assert(inf@ =~= seq!['i', 'n', 'f']);
    assert(infinity@ =~= seq!['i', 'n', 'f', 'i', 'n', 'i', 't', 'y']);
    assert(nan@ =~= seq!['n', 'a', 'n']);
    if word_ignoring_case(s, st, n, &inf) || word_ignoring_case(s, st, n, &infinity)
        || word_ignoring_case(s, st, n, &nan) {
        return true;
    }
    let q = find_exponent(s, st, n);
    assert(b.take(q - st) =~= s@.subrange(st as int, q as int));
    assert(b.skip(q - st) =~= s@.subrange(q as int, n as int));
    mantissa_in(s, st, q) && (q >= n || exponent_in(s, q, n))
}


/// Every decimal literal with an exponent is a float literal, as
/// `f64::from_str` reads it: an optional sign, digits, an optional fraction
/// (`'.'` and digits), then `e` or `E`, an optional `+` or `-`, and at least
/// one digit — whatever the letter's case and the exponent's sign.
pub proof fn lemma_exponent_literal_accepted(
    lead: Seq<char>,
    int_part: Seq<char>,
    frac: Seq<char>,
    letter: char,
    exp_sign: Seq<char>,
    exp_digits: Seq<char>,
)
    requires
        lead.len() == 0 || (lead.len() == 1 && is_sign(lead[0])),
        int_part.len() > 0 && all_digits(int_part),
        frac.len() == 0 || (frac[0] == '.' && all_digits(frac.drop_first())),
        letter == 'e' || letter == 'E',
        exp_sign.len() == 0 || (exp_sign.len() == 1 && is_sign(exp_sign[0])),
        exp_digits.len() > 0 && all_digits(exp_digits),
    ensures
        is_float_literal(lead + int_part + frac + seq![letter] + exp_sign + exp_digits),
{
    let e = seq![letter] + exp_sign + exp_digits;
    let r = e.drop_first();
    assert(r =~= exp_sign + exp_digits);
    if exp_sign.len() == 1 {
        assert(r[0] == exp_sign[0]);
        assert(r.drop_first() =~= exp_digits);
    } else {
        assert(r =~= exp_digits);
    }
    lemma_decimal_accepted(lead, int_part, frac, e);
    assert(lead + int_part + frac + e =~= lead + int_part + frac + seq![letter] + exp_sign
        + exp_digits);
}

/// Every decimal literal without an exponent is a float literal: an optional
/// sign, digits, and an optional fraction (`'.'` and digits).
pub proof fn lemma_plain_decimal_accepted(lead: Seq<char>, int_part: Seq<char>, frac: Seq<char>)
    requires
        lead.len() == 0 || (lead.len() == 1 && is_sign(lead[0])),
        int_part.len() > 0 && all_digits(int_part),
        frac.len() == 0 || (frac[0] == '.' && all_digits(frac.drop_first())),
    ensures
        is_float_literal(lead + int_part + frac),
{
    lemma_decimal_accepted(lead, int_part, frac, Seq::empty());
    assert(lead + int_part + frac + Seq::<char>::empty() =~= lead + int_part + frac);
}

proof fn lemma_decimal_accepted(lead: Seq<char>, int_part: Seq<char>, frac: Seq<char>, e: Seq<char>)
    requires
        lead.len() == 0 || (lead.len() == 1 && is_sign(lead[0])),
        int_part.len() > 0 && all_digits(int_part),
        frac.len() == 0 || (frac[0] == '.' && all_digits(frac.drop_first())),
        e.len() == 0 || ((e[0] == 'e' || e[0] == 'E') && ({
            let r = e.drop_first();
            (r.len() > 0 && all_digits(r)) || (r.len() >= 2 && is_sign(r[0]) && all_digits(
                r.drop_first(),
            ))
        })),
    ensures
        is_float_literal(lead + int_part + frac + e),
{
    let body = int_part + frac + e;
    let s = lead + int_part + frac + e;
    assert(s =~= lead + body);
    let b = if s.len() > 0 && is_sign(s[0]) {
        s.drop_first()
    } else {
        s
    };
    if lead.len() == 1 {
        assert(s[0] == lead[0]);
        assert(b =~= body);
    } else {
        assert(s =~= body);
        assert(!is_sign(s[0])) by {
            assert(s[0] == int_part[0]);
            assert(is_digit(int_part[0]));
        }
        assert(b =~= body);
    }
    let m = int_part + frac;
    let q = m.len() as int;
    assert forall|j: int| 0 <= j < q implies body[j] != 'e' && body[j] != 'E' by {
        assert(body[j] == m[j]);
        if j < int_part.len() {
            assert(m[j] == int_part[j]);
            assert(is_digit(int_part[j]));
        } else if j > int_part.len() {
            assert(m[j] == frac.drop_first()[j - int_part.len() - 1]);
            assert(is_digit(frac.drop_first()[j - int_part.len() - 1]));
        }
    }
    if e.len() > 0 {
        assert(body[q] == e[0]);
    }
    lemma_exponent_start(body, q);
    assert(body.take(q) =~= m);
    assert(body.skip(q) =~= e);
    // the mantissa
    if frac.len() == 0 {
        assert(m =~= int_part);
        assert forall|j: int| 0 <= j < m.len() implies m[j] != '.' by {
            assert(is_digit(int_part[j]));
        }
        lemma_index_or_len(m, '.', m.len() as int);
    } else {
        let p = int_part.len() as int;
        assert forall|j: int| 0 <= j < p implies m[j] != '.' by {
            assert(m[j] == int_part[j]);
            assert(is_digit(int_part[j]));
        }
        assert(m[p] == '.');
        lemma_index_or_len(m, '.', p);
        assert(m.take(p) =~= int_part);
        assert(m.skip(p + 1) =~= frac.drop_first());
    }
    assert(is_mantissa(m));
    // the exponent
    if e.len() > 0 {
        let r = e.drop_first();
        if r.len() >= 2 && is_sign(r[0]) && all_digits(r.drop_first()) {
            assert(e[1] == r[0]);
            assert(e.skip(2) =~= r.drop_first());
        } else {
            assert(e[1] == r[0]);
            assert(is_digit(r[0]));
            assert(e.skip(1) =~= r);
        }
        assert(is_exponent(e));
    }
    assert(is_decimal(b));
}

} // verus!

//! Character-level text handling: whitespace, trimming and splitting.
use vstd::prelude::*;

verus! {

/// The Unicode `White_Space` property, which `char::is_whitespace` tests.
pub open spec fn is_white_space(c: char) -> bool {
    let u = c as u32;
    ||| 0x9 <= u <= 0xd
    ||| u == 0x20
    ||| u == 0x85
    ||| u == 0xa0
    ||| u == 0x1680
    ||| 0x2000 <= u <= 0x200a
    ||| u == 0x2028
    ||| u == 0x2029
    ||| u == 0x202f
    ||| u == 0x205f
    ||| u == 0x3000
}

/// `s` with its leading whitespace removed.
pub open spec fn trim_front(s: Seq<char>) -> Seq<char>
    decreases s.len(),
{
    if s.len() > 0 && is_white_space(s[0]) {
        trim_front(s.drop_first())
    } else {
        s
    }
}

/// `s` with its trailing whitespace removed.
pub open spec fn trim_back(s: Seq<char>) -> Seq<char>
    decreases s.len(),
{
    if s.len() > 0 && is_white_space(s.last()) {
        trim_back(s.drop_last())
    } else {
        s
    }
}

/// `s` with whitespace removed at both ends, as `str::trim` gives it.
pub open spec fn trimmed(s: Seq<char>) -> Seq<char> {
    trim_back(trim_front(s))
}

/// Tests `c` for the Unicode `White_Space` property.
pub fn is_white_space_char(c: char) -> (b: bool)
    ensures
        b == is_white_space(c),
{
    let u = c as u32;
    (0x9 <= u && u <= 0xd) || u == 0x20 || u == 0x85 || u == 0xa0 || u == 0x1680 || (0x2000 <= u
        && u <= 0x200a) || u == 0x2028 || u == 0x2029 || u == 0x202f || u == 0x205f || u == 0x3000
}

proof fn lemma_trim_front_step(s: Seq<char>, i: int)
    requires
        0 <= i < s.len(),
        is_white_space(s[i]),
    ensures
        trim_front(s.subrange(i, s.len() as int)) == trim_front(s.subrange(i + 1, s.len() as int)),
{
    assert(s.subrange(i, s.len() as int).drop_first() =~= s.subrange(i + 1, s.len() as int));
}

proof fn lemma_trim_back_step(s: Seq<char>, j: int)
    requires
        0 < j <= s.len(),
        is_white_space(s[j - 1]),
    ensures
        trim_back(s.subrange(0, j)) == trim_back(s.subrange(0, j - 1)),
{
    assert(s.subrange(0, j).drop_last() =~= s.subrange(0, j - 1));
}

/// Copies `s[lo..hi]`.
pub fn copy_range(s: &[char], lo: usize, hi: usize) -> (r: Vec<char>)
    requires
        lo <= hi <= s@.len(),
    ensures
        r@ == s@.subrange(lo as int, hi as int),
{
    let mut r: Vec<char> = Vec::new();
    let mut k: usize = lo;
    while k < hi
        invariant
            lo <= k <= hi <= s@.len(),
            r@ == s@.subrange(lo as int, k as int),
        decreases hi - k,
    {
        r.push(s[k]);
        assert(r@ =~= s@.subrange(lo as int, k + 1));
        k = k + 1;
    }
    r
}

/// Removes leading and trailing whitespace, as `str::trim` does.
pub fn trim(s: &[char]) -> (r: Vec<char>)
    ensures
        r@ == trimmed(s@),
{
    let n = s.len();
    let mut i: usize = 0;
    assert(s@.subrange(0, n as int) =~= s@);
    while i < n && is_white_space_char(s[i])
        invariant
            i <= n == s@.len(),
            trim_front(s@) == trim_front(s@.subrange(i as int, n as int)),
        decreases n - i,
    {
        proof {
            lemma_trim_front_step(s@, i as int);
        }
        i = i + 1;
    }
    let ghost front = s@.subrange(i as int, n as int);
    assert(trim_front(s@) == front);
    let mut j: usize = n;
    assert(front.subrange(0, (n - i) as int) =~= front);
    while j > i && is_white_space_char(s[j - 1])
        invariant
            i <= j <= n == s@.len(),
            front == s@.subrange(i as int, n as int),
            trim_back(front) == trim_back(front.subrange(0, (j - i) as int)),
        decreases j,
    {
        proof {
            lemma_trim_back_step(front, (j - i) as int);
        }
        j = j - 1;
    }
    assert(front.subrange(0, (j - i) as int) =~= s@.subrange(i as int, j as int));
    copy_range(s, i, j)
}


/// The index of the first `c` in `s`, or `s.len()` when there is none.
pub open spec fn index_or_len(s: Seq<char>, c: char) -> int
    decreases s.len(),
{
    if s.len() == 0 {
        0
    } else if s[0] == c {
        0
    } else {
        1 + index_or_len(s.drop_first(), c)
    }
}

/// The pieces of `s` between occurrences of `sep`, as `str::split` gives them
/// for a single character: always at least one piece.
pub open spec fn split_on(s: Seq<char>, sep: char) -> Seq<Seq<char>>
    decreases s.len(),
{
    let k = index_or_len(s, sep);
    proof {
        lemma_index_or_len_bounds(s, sep);
    }
    if k >= s.len() {
        seq![s]
    } else {
        seq![s.take(k)] + split_on(s.skip(k + 1), sep)
    }
}

/// A vector of character vectors that holds exactly the sequences `t`.
pub open spec fn views_match(r: Seq<Vec<char>>, t: Seq<Seq<char>>) -> bool {
    &&& r.len() == t.len()
    &&& forall|k: int| 0 <= k < r.len() ==> #[trigger] r[k]@ == t[k]
}

pub proof fn lemma_index_or_len_bounds(s: Seq<char>, c: char)
    ensures
        0 <= index_or_len(s, c) <= s.len(),
        index_or_len(s, c) < s.len() ==> s[index_or_len(s, c)] == c,
        forall|j: int| 0 <= j < index_or_len(s, c) ==> s[j] != c,
    decreases s.len(),
{
    if s.len() > 0 && s[0] != c {
        lemma_index_or_len_bounds(s.drop_first(), c);
        assert forall|j: int| 0 <= j < index_or_len(s, c) implies s[j] != c by {
            if j > 0 {
                assert(s[j] == s.drop_first()[j - 1]);
            }
        }
    }
}

/// The first `c` in `s` is at `k` when none comes before `k` and `s[k]` is `c`
/// (or `k` is the end).
pub proof fn lemma_index_or_len(s: Seq<char>, c: char, k: int)
    requires
        0 <= k <= s.len(),
        forall|j: int| 0 <= j < k ==> s[j] != c,
        k < s.len() ==> s[k] == c,
    ensures
        index_or_len(s, c) == k,
        0 <= index_or_len(s, c) <= s.len(),
    decreases s.len(),
{
    if s.len() > 0 && k > 0 {
        lemma_index_or_len(s.drop_first(), c, k - 1);
    }
}

/// Splits `s` at every `sep`, as `str::split` with a character pattern does.
pub fn split_char(s: &[char], sep: char) -> (r: Vec<Vec<char>>)
    ensures
        views_match(r@, split_on(s@, sep)),
{
    let n = s.len();
    let mut r: Vec<Vec<char>> = Vec::new();
    let mut st: usize = 0;
    let mut i: usize = 0;
    assert(s@.skip(0) =~= s@);
    while i < n
        invariant
            st <= i <= n == s@.len(),
            forall|j: int| st <= j < i ==> s@[j] != sep,
            r@.len() + split_on(s@.skip(st as int), sep).len() == split_on(s@, sep).len(),
            forall|k: int| 0 <= k < r@.len() ==> #[trigger] r@[k]@ == split_on(s@, sep)[k],
            forall|k: int|
                0 <= k < split_on(s@.skip(st as int), sep).len() ==> #[trigger] split_on(
                    s@.skip(st as int),
                    sep,
                )[k] == split_on(s@, sep)[r@.len() + k],
        decreases n - i,
    {
        if s[i] == sep {
            let ghost t = s@.skip(st as int);
            proof {
                lemma_index_or_len(t, sep, (i - st) as int);
                assert(t.take((i - st) as int) =~= s@.subrange(st as int, i as int));
                assert(t.skip((i - st) + 1) =~= s@.skip(i + 1));
                let tail = split_on(s@.skip(i + 1), sep);
                assert(split_on(t, sep) =~= seq![s@.subrange(st as int, i as int)] + tail);
                assert(split_on(t, sep)[0] == split_on(s@, sep)[r@.len() as int]);
                assert forall|k: int| 0 <= k < tail.len() implies #[trigger] tail[k] == split_on(
                    s@,
                    sep,
                )[r@.len() + 1 + k] by {
                    assert(split_on(t, sep)[k + 1] == tail[k]);
                }
            }
            let piece = copy_range(s, st, i);
            r.push(piece);
            st = i + 1;
        }
        i = i + 1;
    }
    let ghost t = s@.skip(st as int);
    proof {
        lemma_index_or_len(t, sep, (n - st) as int);
        assert(split_on(t, sep) =~= seq![t]);
        assert(t =~= s@.subrange(st as int, n as int));
        assert(split_on(t, sep)[0] == split_on(s@, sep)[r@.len() as int]);
    }
    let piece = copy_range(s, st, n);
    r.push(piece);
    r
}


/// The pieces of `s` that a `'\n'` ends, the last one possibly unterminated:
/// no empty piece follows a final `'\n'`, and an empty `s` has none.
pub open spec fn newline_pieces(s: Seq<char>) -> Seq<Seq<char>> {
    if s.len() == 0 || s.last() == '\n' {
        split_on(s, '\n').drop_last()
    } else {
        split_on(s, '\n')
    }
}

/// `l` without one trailing carriage return.
pub open spec fn strip_cr(l: Seq<char>) -> Seq<char> {
    if l.len() > 0 && l.last() == '\r' {
        l.drop_last()
    } else {
        l
    }
}

/// The lines of `s` as `str::lines` gives them: a line ends at `"\n"` or
/// `"\r\n"`; a carriage return in a last line that no `'\n'` ends stays.
pub open spec fn std_lines(s: Seq<char>) -> Seq<Seq<char>> {
    let p = newline_pieces(s);
    Seq::new(
        p.len(),
        |k: int|
            if k < p.len() - 1 || s.last() == '\n' {
                strip_cr(p[k])
            } else {
                p[k]
            },
    )
}

pub proof fn lemma_split_on_nonempty(s: Seq<char>, sep: char)
    ensures
        split_on(s, sep).len() >= 1,
    decreases s.len(),
{
    lemma_index_or_len_bounds(s, sep);
    let k = index_or_len(s, sep);
    if k < s.len() {
        lemma_split_on_nonempty(s.skip(k + 1), sep);
    }
}

/// Removes one trailing carriage return from `l`, if it has one.
fn without_cr(l: Vec<char>) -> (r: Vec<char>)
    ensures
        r@ == strip_cr(l@),
{
    let n = l.len();
    if n > 0 && l[n - 1] == '\r' {
        let r = copy_range(l.as_slice(), 0, n - 1);
        assert(r@ =~= l@.drop_last());
        r
    } else {
        l
    }
}

/// Splits `s` into lines as `str::lines` does.
pub fn lines(s: &[char]) -> (r: Vec<Vec<char>>)
    ensures
        views_match(r@, std_lines(s@)),
{
    let n = s.len();
    let mut pieces = split_char(s, '\n');
    proof {
        lemma_split_on_nonempty(s@, '\n');
    }
    let ends_with_newline = n > 0 && s[n - 1] == '\n';
    if n == 0 || ends_with_newline {
        pieces.pop();
    }
    let ghost p = newline_pieces(s@);
    assert(views_match(pieces@, p));
    let m = pieces.len();
    let mut r: Vec<Vec<char>> = Vec::new();
    let mut rest: Vec<Vec<char>> = Vec::new();
    // Take the pieces out in reverse, then rebuild in order.
    let mut k: usize = m;
    while k > 0
        invariant
            k == pieces@.len(),
            m == p.len(),
            rest@.len() == m - k,
            forall|j: int| 0 <= j < m - k ==> #[trigger] rest@[j]@ == p[m - 1 - j],
            forall|j: int| 0 <= j < k ==> #[trigger] pieces@[j]@ == p[j],
        decreases k,
    {
        let last = pieces.pop().unwrap();
        rest.push(last);
        k = k - 1;
    }
    let mut i: usize = 0;
    while i < m
        invariant
            i <= m == p.len(),
            p == newline_pieces(s@),
            n == s@.len(),
            ends_with_newline == (n > 0 && s@.last() == '\n'),
            rest@.len() == m - i,
            forall|j: int| 0 <= j < m - i ==> #[trigger] rest@[j]@ == p[m - 1 - j],
            r@.len() == i,
            forall|j: int| 0 <= j < i ==> #[trigger] r@[j]@ == std_lines(s@)[j],
        decreases m - i,
    {
        let piece = rest.pop().unwrap();
        assert(piece@ == p[i as int]);
        let line = if i + 1 < m || ends_with_newline {
            without_cr(piece)
        } else {
            piece
        };
        r.push(line);
        i = i + 1;
    }
    r
}


/// The characters of `s`, in order.
pub fn chars_of(s: &str) -> (r: Vec<char>)
    ensures
        r@ == s@,
{
    broadcast use vstd::string::axiom_spec_iter;

    let mut r: Vec<char> = Vec::new();
    for c in it: s.chars()
        invariant
            r@ == it.seq().take(it.index() as int),
    {
        r.push(c);
        assert(r@ =~= it.seq().take(it.index() + 1));
    }
    assert(r@ =~= s@);
    r
}


/// Whether `c` occurs in `s`.
pub fn contains_char(s: &[char], c: char) -> (b: bool)
    ensures
        b == s@.contains(c),
{
    let mut i: usize = 0;
    while i < s.len()
        invariant
            i <= s@.len(),
            forall|j: int| 0 <= j < i ==> s@[j] != c,
        decreases s@.len() - i,
    {
        if s[i] == c {
            assert(s@[i as int] == c);
            return true;
        }
        i = i + 1;
    }
    false
}


/// The length of the leading whitespace of `x`.
proof fn lemma_ws_prefix(x: Seq<char>) -> (f: int)
    ensures
        0 <= f <= x.len(),
        forall|j: int| 0 <= j < f ==> is_white_space(#[trigger] x[j]),
        f < x.len() ==> !is_white_space(x[f]),
    decreases x.len(),
{
    if x.len() > 0 && is_white_space(x[0]) {
        let f1 = lemma_ws_prefix(x.drop_first());
        assert forall|j: int| 0 <= j < f1 + 1 implies is_white_space(#[trigger] x[j]) by {
            if j > 0 {
                assert(x[j] == x.drop_first()[j - 1]);
            }
        }
        if f1 + 1 < x.len() {
            assert(x[f1 + 1] == x.drop_first()[f1]);
        }
        f1 + 1
    } else {
        0
    }
}

/// Where the trailing whitespace of `x` starts.
proof fn lemma_ws_suffix(x: Seq<char>) -> (g: int)
    ensures
        0 <= g <= x.len(),
        forall|j: int| g <= j < x.len() ==> is_white_space(#[trigger] x[j]),
        g > 0 ==> !is_white_space(x[g - 1]),
    decreases x.len(),
{
    if x.len() > 0 && is_white_space(x.last()) {
        let g1 = lemma_ws_suffix(x.drop_last());
        assert forall|j: int| g1 <= j < x.len() implies is_white_space(#[trigger] x[j]) by {
            if j < x.len() - 1 {
                assert(x[j] == x.drop_last()[j]);
            }
        }
        if g1 > 0 {
            assert(x[g1 - 1] == x.drop_last()[g1 - 1]);
        }
        g1
    } else {
        x.len() as int
    }
}

/// `trim_front` removes exactly the leading whitespace.
proof fn lemma_trim_front_at(x: Seq<char>, f: int)
    requires
        0 <= f <= x.len(),
        forall|j: int| 0 <= j < f ==> is_white_space(#[trigger] x[j]),
        f < x.len() ==> !is_white_space(x[f]),
    ensures
        trim_front(x) == x.skip(f),
    decreases f,
{
    if f == 0 {
        assert(x.skip(0) =~= x);
    } else {
        assert(is_white_space(x[0]));
        let y = x.drop_first();
        assert forall|j: int| 0 <= j < f - 1 implies is_white_space(#[trigger] y[j]) by {
            assert(y[j] == x[j + 1]);
        }
        if f - 1 < y.len() {
            assert(y[f - 1] == x[f]);
        }
        lemma_trim_front_at(y, f - 1);
        assert(y.skip(f - 1) =~= x.skip(f));
    }
}

/// `trim_back` removes exactly the trailing whitespace.
proof fn lemma_trim_back_at(x: Seq<char>, g: int)
    requires
        0 <= g <= x.len(),
        forall|j: int| g <= j < x.len() ==> is_white_space(#[trigger] x[j]),
        g > 0 ==> !is_white_space(x[g - 1]),
    ensures
        trim_back(x) == x.take(g),
    decreases x.len() - g,
{
    if g == x.len() {
        if x.len() > 0 {
            assert(!is_white_space(x.last()));
        }
        assert(x.take(g) =~= x);
    } else {
        assert(is_white_space(x.last()));
        let y = x.drop_last();
        assert forall|j: int| g <= j < y.len() implies is_white_space(#[trigger] y[j]) by {
            assert(y[j] == x[j]);
        }
        if g > 0 {
            assert(y[g - 1] == x[g - 1]);
        }
        lemma_trim_back_at(y, g);
        assert(y.take(g) =~= x.take(g));
    }
}

/// Trimming the front of a text that holds a comma stops at the comma at the
/// latest: what follows the comma is kept as it is.
proof fn lemma_trim_front_comma(x: Seq<char>, y: Seq<char>)
    ensures
        trim_front(x + seq![','] + y) == trim_front(x) + seq![','] + y,
{
    let f = lemma_ws_prefix(x);
    let s = x + seq![','] + y;
    assert forall|j: int| 0 <= j < f implies is_white_space(#[trigger] s[j]) by {
        assert(s[j] == x[j]);
    }
    if f < x.len() {
        assert(s[f] == x[f]);
    } else {
        assert(s[f] == ',');
    }
    lemma_trim_front_at(s, f);
    lemma_trim_front_at(x, f);
    assert(s.skip(f) =~= x.skip(f) + seq![','] + y);
}

/// Trimming the back of a text that holds a comma stops at the comma at the
/// latest: what precedes the comma is kept as it is.
proof fn lemma_trim_back_comma(x: Seq<char>, y: Seq<char>)
    ensures
        trim_back(x + seq![','] + y) == x + seq![','] + trim_back(y),
{
    let g = lemma_ws_suffix(y);
    let s = x + seq![','] + y;
    let off = x.len() + 1;
    assert forall|j: int| off + g <= j < s.len() implies is_white_space(#[trigger] s[j]) by {
        assert(s[j] == y[j - off]);
    }
    if g > 0 {
        assert(s[off + g - 1] == y[g - 1]);
    } else {
        assert(s[off - 1] == ',');
    }
    lemma_trim_back_at(s, off + g);
    lemma_trim_back_at(y, g);
    assert(s.take(off + g) =~= x + seq![','] + y.take(g));
}

/// Trimming both ends gives the same whichever end is trimmed first, and
/// trimming again changes nothing.
proof fn lemma_trimmed_again(x: Seq<char>)
    ensures
        trimmed(trim_front(x)) == trimmed(x),
        trimmed(trim_back(x)) == trimmed(x),
{
    let f = lemma_ws_prefix(x);
    let g = lemma_ws_suffix(x);
    lemma_trim_front_at(x, f);
    lemma_trim_back_at(x, g);
    let a = x.skip(f);
    // trimming the front of a trimmed front changes nothing
    if a.len() > 0 {
        assert(a[0] == x[f]);
    }
    lemma_trim_front_at(a, 0);
    assert(a.skip(0) =~= a);
    // the trimmed text is x[f..max(f, g)]
    if g > f {
        let ta = g - f;
        assert forall|j: int| ta <= j < a.len() implies is_white_space(#[trigger] a[j]) by {
            assert(a[j] == x[j + f]);
        }
        assert(a[ta - 1] == x[g - 1]);
        lemma_trim_back_at(a, ta);
        let b = x.take(g);
        assert forall|j: int| 0 <= j < f implies is_white_space(#[trigger] b[j]) by {
            assert(b[j] == x[j]);
        }
        assert(b[f] == x[f]);
        lemma_trim_front_at(b, f);
        let c = b.skip(f);
        if c.len() > 0 {
            assert(c[0] == x[f]);
        }
        lemma_trim_front_at(c, 0);
        assert(c.skip(0) =~= c);
        assert(c.len() > 0 && c[c.len() - 1] == x[g - 1]);
        assert forall|j: int| c.len() <= j < c.len() implies is_white_space(#[trigger] c[j]) by {}
        lemma_trim_back_at(c, c.len() as int);
        assert(c.take(c.len() as int) =~= c);
        assert(a.take(ta) =~= c);
    } else {
        // everything from f on is whitespace, and f <= len
        if g > 0 {
            assert(!is_white_space(x[g - 1]));
            assert(g - 1 < f);
            assert(is_white_space(x[g - 1]));
        }
        assert forall|j: int| 0 <= j < a.len() implies is_white_space(#[trigger] a[j]) by {
            assert(a[j] == x[j + f]);
        }
        lemma_trim_back_at(a, 0);
        let b = x.take(g);
        assert(b.len() == 0);
        assert(trim_front(b) =~= b) by {
            lemma_trim_front_at(b, 0);
            assert(b.skip(0) =~= b);
        }
        lemma_trim_back_at(b, 0);
        assert(a.take(0) =~= b.take(0));
    }
}

/// The pieces around the first comma of a text: the part before it holds no
/// comma.
pub proof fn lemma_split_at_first_comma(a: Seq<char>, b: Seq<char>)
    requires
        !a.contains(','),
    ensures
        split_on(a + seq![','] + b, ',') == seq![a] + split_on(b, ','),
{
    let s = a + seq![','] + b;
    assert forall|j: int| 0 <= j < a.len() implies s[j] != ',' by {
        assert(s[j] == a[j]);
    }
    assert(s[a.len() as int] == ',');
    lemma_index_or_len(s, ',', a.len() as int);
    assert(s.take(a.len() as int) =~= a);
    assert(s.skip(a.len() + 1 as int) =~= b);
}

/// A text without a comma is a single piece.
pub proof fn lemma_split_no_comma(b: Seq<char>)
    requires
        !b.contains(','),
    ensures
        split_on(b, ',') == seq![b],
{
    assert forall|j: int| 0 <= j < b.len() implies b[j] != ',' by {
        if b[j] == ',' {
            assert(b.contains(','));
        }
    }
    lemma_index_or_len(b, ',', b.len() as int);
}

proof fn lemma_trims_keep_no_comma(x: Seq<char>)
    requires
        !x.contains(','),
    ensures
        !trim_front(x).contains(','),
        !trim_back(x).contains(','),
{
    let f = lemma_ws_prefix(x);
    let g = lemma_ws_suffix(x);
    lemma_trim_front_at(x, f);
    lemma_trim_back_at(x, g);
    if trim_front(x).contains(',') {
        let j = choose|j: int| 0 <= j < x.skip(f).len() && x.skip(f)[j] == ',';
        assert(x[j + f] == ',');
    }
    if trim_back(x).contains(',') {
        let j = choose|j: int| 0 <= j < x.take(g).len() && x.take(g)[j] == ',';
        assert(x[j] == ',');
    }
}

/// The comma-separated pieces of a trimmed line `a,b` or `a,b,rest` (`a` and
/// `b` without commas): the first two are `a` and `b` up to whitespace at
/// their outer ends, and trimming each gives the trimmed `a` and `b`.
pub proof fn lemma_trimmed_line_pieces(a: Seq<char>, b: Seq<char>, tail: Seq<char>)
    requires
        !a.contains(','),
        !b.contains(','),
        tail.len() == 0 || tail[0] == ',',
    ensures
        split_on(trimmed(a + seq![','] + b + tail), ',').len() >= 2,
        trimmed(split_on(trimmed(a + seq![','] + b + tail), ',')[0]) == trimmed(a),
        trimmed(split_on(trimmed(a + seq![','] + b + tail), ',')[1]) == trimmed(b),
        tail.len() == 0 ==> split_on(trimmed(a + seq![','] + b + tail), ',').len() == 2,
{
    let line = a + seq![','] + b + tail;
    assert(line =~= a + seq![','] + (b + tail));
    lemma_trim_front_comma(a, b + tail);
    let fa = trim_front(a);
    lemma_trim_back_comma(fa, b + tail);
    lemma_trims_keep_no_comma(a);
    lemma_trims_keep_no_comma(b);
    lemma_trimmed_again(a);
    lemma_trimmed_again(b);
    let t = trimmed(line);
    assert(t == fa + seq![','] + trim_back(b + tail));
    lemma_split_at_first_comma(fa, trim_back(b + tail));
    if tail.len() == 0 {
        assert(b + tail =~= b);
        lemma_split_no_comma(trim_back(b));
    } else {
        let rest = tail.drop_first();
        assert(b + tail =~= b + seq![','] + rest);
        lemma_trim_back_comma(b, rest);
        lemma_split_at_first_comma(b, trim_back(rest));
        crate::text::lemma_split_on_nonempty(trim_back(rest), ',');
    }
}

} // verus!

//! Character-level helpers shared by the lexer and the query builder.
use vstd::prelude::*;

verus! {

/// The Unicode `White_Space` property, which is what `char::is_whitespace`
/// and therefore `str::trim` go by.
pub open spec fn is_ws(c: char) -> bool {
    ||| ('\u{9}' <= c && c <= '\u{d}')
    ||| c == ' '
    ||| c == '\u{85}'
    ||| c == '\u{a0}'
    ||| c == '\u{1680}'
    ||| ('\u{2000}' <= c && c <= '\u{200a}')
    ||| c == '\u{2028}'
    ||| c == '\u{2029}'
    ||| c == '\u{202f}'
    ||| c == '\u{205f}'
    ||| c == '\u{3000}'
}

/// The first index in `[i, b)` whose character is not whitespace, or `b`.
pub open spec fn ws_first(t: Seq<char>, i: int, b: int) -> int
    decreases b - i,
{
    if i >= b {
        b
    } else if is_ws(t[i]) {
        ws_first(t, i + 1, b)
    } else {
        i
    }
}

/// The end of `[lo, j)` once trailing whitespace is dropped.
pub open spec fn ws_last(t: Seq<char>, lo: int, j: int) -> int
    decreases j - lo,
{
    if j <= lo {
        lo
    } else if is_ws(t[j - 1]) {
        ws_last(t, lo, j - 1)
    } else {
        j
    }
}

/// `t[a..b]` without its leading and trailing whitespace, as a range.
pub open spec fn trim_range(t: Seq<char>, a: int, b: int) -> (int, int) {
    let lo = ws_first(t, a, b);
    (lo, ws_last(t, lo, b))
}

/// `t` without its leading and trailing whitespace: what `str::trim` returns.
pub open spec fn trim(t: Seq<char>) -> Seq<char> {
    let (lo, hi) = trim_range(t, 0, t.len() as int);
    t.subrange(lo, hi)
}

pub proof fn lemma_ws_first(t: Seq<char>, i: int, b: int)
    requires
        i <= b,
    ensures
        i <= ws_first(t, i, b) <= b,
        forall|k: int| i <= k < ws_first(t, i, b) ==> is_ws(#[trigger] t[k]),
        ws_first(t, i, b) < b ==> !is_ws(t[ws_first(t, i, b)]),
    decreases b - i,
{
    if i < b && is_ws(t[i]) {
        lemma_ws_first(t, i + 1, b);
    }
}

pub proof fn lemma_ws_last(t: Seq<char>, lo: int, j: int)
    requires
        lo <= j,
    ensures
        lo <= ws_last(t, lo, j) <= j,
        forall|k: int| ws_last(t, lo, j) <= k < j ==> is_ws(#[trigger] t[k]),
        ws_last(t, lo, j) > lo ==> !is_ws(t[ws_last(t, lo, j) - 1]),
    decreases j - lo,
{
    if j > lo && is_ws(t[j - 1]) {
        lemma_ws_last(t, lo, j - 1);
    }
}

/// Whether `c` is whitespace in the sense of `char::is_whitespace`.
pub fn is_whitespace(c: char) -> (r: bool)
    ensures
        r == is_ws(c),
{
    ('\u{9}' <= c && c <= '\u{d}') || c == ' ' || c == '\u{85}' || c == '\u{a0}' || c
        == '\u{1680}' || ('\u{2000}' <= c && c <= '\u{200a}') || c == '\u{2028}' || c
        == '\u{2029}' || c == '\u{202f}' || c == '\u{205f}' || c == '\u{3000}'
}

/// The bounds of `t[a..b]` once its leading and trailing whitespace is
/// dropped.
pub fn trim_bounds(t: &[char], a: usize, b: usize) -> (r: (usize, usize))
    requires
        a <= b <= t@.len(),
    ensures
        r.0 as int == trim_range(t@, a as int, b as int).0,
        r.1 as int == trim_range(t@, a as int, b as int).1,
        a <= r.0 <= r.1 <= b,
{
    let mut lo = a;
    while lo < b && is_whitespace(t[lo])
        invariant
            a <= lo <= b <= t@.len(),
            ws_first(t@, a as int, b as int) == ws_first(t@, lo as int, b as int),
        decreases b - lo,
    {
        lo = lo + 1;
    }
    let mut hi = b;
    while hi > lo && is_whitespace(t[hi - 1])
        invariant
            a <= lo <= hi <= b <= t@.len(),
            ws_first(t@, a as int, b as int) == lo,
            ws_last(t@, lo as int, b as int) == ws_last(t@, lo as int, hi as int),
        decreases hi - lo,
    {
        hi = hi - 1;
    }
    (lo, hi)
}

/// `String::push`: appends one character to the end of the string.
#[verifier::external_body]
pub(crate) fn push_char(s: &mut String, c: char)
    ensures
        final(s)@ == old(s)@.push(c),
{
    s.push(c)
}

/// Appends `t[lo..hi]` to `out`.
pub fn push_chars(out: &mut String, t: &[char], lo: usize, hi: usize)
    requires
        lo <= hi <= t@.len(),
    ensures
        final(out)@ == old(out)@ + t@.subrange(lo as int, hi as int),
{
    let ghost start = out@;
    let mut k = lo;
    while k < hi
        invariant
            lo <= k <= hi <= t@.len(),
            out@ == start + t@.subrange(lo as int, k as int),
        decreases hi - k,
    {
        push_char(out, t[k]);
        k = k + 1;
        assert(t@.subrange(lo as int, k as int) =~= t@.subrange(lo as int, k - 1).push(t@[k - 1]));
    }
}

/// The characters of `s`, one element each.
pub fn chars_of(s: &str) -> (r: Vec<char>)
    ensures
        r@ == s@,
{
    let mut r: Vec<char> = Vec::new();
    for c in it: s.chars()
        invariant
            r@ == it.seq().take(it.index() as int),
    {
        r.push(c);
    }
    r
}

} // verus!

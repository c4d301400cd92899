//! What splitting a script into statements keeps: a statement that comes out
//! splits again into itself, and a script joined at a top-level `;` splits
//! into the statements of its two parts.
//!
//! Both rest on one fact about the walk: it looks only forward, so on a
//! window `s[lo..hi]` it takes the same steps as on `s`, except that a step
//! that would leave the window ends at the window's end.
use vstd::prelude::*;

use crate::lexer::{
    after_dollar, block_end, find_tag, is_ascii_digit, is_block_comment_at, is_line_comment_at,
    is_quote, is_tag_char, lemma_block_end, lemma_line_end, lemma_quoted_end, lemma_skip_dollar,
    lemma_tag_end, line_end, quoted_end, skip_quoted_spec, split_from, split_spec, statement_spec,
    tag_end,
};
use crate::text::{is_ws, lemma_ws_first, lemma_ws_last, trim_range, ws_first, ws_last};

verus! {

pub open spec fn min_int(a: int, b: int) -> int {
    if a <= b {
        a
    } else {
        b
    }
}

/// Where the statement walk continues from `i`, where `s[i]` is not `;`.
pub open spec fn split_step(s: Seq<char>, i: int) -> int {
    if is_quote(s[i]) {
        skip_quoted_spec(s, i)
    } else if is_line_comment_at(s, i) {
        line_end(s, i)
    } else if is_block_comment_at(s, i) {
        block_end(s, 0, i)
    } else if s[i] == '$' {
        after_dollar(s, i)
    } else {
        i + 1
    }
}

/// Every step of the walk moves forward and stays within the input.
pub proof fn lemma_split_step(s: Seq<char>, i: int)
    requires
        0 <= i < s.len(),
    ensures
        i < split_step(s, i) <= s.len(),
{
    if is_quote(s[i]) {
        lemma_quoted_end(s, s[i], i + 1);
    } else if is_line_comment_at(s, i) {
        lemma_line_end(s, i);
    } else if is_block_comment_at(s, i) {
        lemma_block_end(s, 0, i);
    } else if s[i] == '$' {
        lemma_skip_dollar(s, i);
    }
}

/// Whether the statement walk from `p` arrives at `e`, stepping over any
/// `;` on the way.
pub open spec fn reaches(s: Seq<char>, p: int, e: int) -> bool
    decreases s.len() - p,
{
    if p < 0 || p >= e || p >= s.len() {
        p == e
    } else if s[p] == ';' {
        reaches(s, p + 1, e)
    } else {
        proof {
            lemma_split_step(s, p);
        }
        reaches(s, split_step(s, p), e)
    }
}

/// Whether the statement walk from `p` arrives at `e` without meeting a
/// top-level `;`.
pub open spec fn clear(s: Seq<char>, p: int, e: int) -> bool
    decreases s.len() - p,
{
    if p < 0 || p >= e || p >= s.len() {
        p == e
    } else if s[p] == ';' {
        false
    } else {
        proof {
            lemma_split_step(s, p);
        }
        clear(s, split_step(s, p), e)
    }
}

proof fn lemma_reaches_le(s: Seq<char>, p: int, e: int)
    requires
        reaches(s, p, e),
    ensures
        p <= e,
{
}

proof fn lemma_clear_le(s: Seq<char>, p: int, e: int)
    requires
        clear(s, p, e),
    ensures
        p <= e,
{
}

/// `a` ends at top level: a `;` written right after it is not inside a
/// literal, a comment or a dollar-quoted body that `a` opened.
pub open spec fn ends_at_top_level(a: Seq<char>) -> bool {
    reaches(a + seq![';'], 0, a.len() as int)
}

/// The window `s[lo..hi]` ends where no dollar-quote tag runs across its
/// edge: at the end of `s`, before a character that is neither a tag
/// character nor `$`, or on such a character.
pub open spec fn window_ok(s: Seq<char>, lo: int, hi: int) -> bool {
    ||| hi == s.len()
    ||| (hi < s.len() && !is_tag_char(s[hi]) && s[hi] != '$')
    ||| (lo < hi && !is_tag_char(s[hi - 1]) && s[hi - 1] != '$')
}

// -----------------------------------------------------------------------------
//                         Each construct on a window
// -----------------------------------------------------------------------------

proof fn lemma_window_quoted(s: Seq<char>, lo: int, hi: int, q: char, i: int)
    requires
        0 <= lo <= hi <= s.len(),
        0 <= i,
    ensures
        quoted_end(s.subrange(lo, hi), q, i) == min_int(quoted_end(s, q, lo + i), hi) - lo,
    decreases hi - lo + 1 - i,
{
    let t = s.subrange(lo, hi);
    let p = lo + i;
    if i >= t.len() {
        if p <= s.len() {
            lemma_quoted_end(s, q, p);
        }
    } else {
        assert(t[i] == s[p]);
        if t[i] == '\\' {
            lemma_window_quoted(s, lo, hi, q, i + 2);
        } else if t[i] == q {
            if i + 1 < t.len() {
                assert(t[i + 1] == s[p + 1]);
                if t[i + 1] == q {
                    lemma_window_quoted(s, lo, hi, q, i + 2);
                }
            } else if p + 1 < s.len() && s[p + 1] == q {
                lemma_quoted_end(s, q, p + 2);
            }
        } else {
            lemma_window_quoted(s, lo, hi, q, i + 1);
        }
    }
}

proof fn lemma_window_line(s: Seq<char>, lo: int, hi: int, i: int)
    requires
        0 <= lo <= hi <= s.len(),
        0 <= i <= hi - lo,
    ensures
        line_end(s.subrange(lo, hi), i) == min_int(line_end(s, lo + i), hi) - lo,
    decreases hi - lo - i,
{
    let t = s.subrange(lo, hi);
    if i == t.len() {
        if lo + i < s.len() {
            lemma_line_end(s, lo + i);
        }
    } else {
        assert(t[i] == s[lo + i]);
        if t[i] != '\n' {
            lemma_window_line(s, lo, hi, i + 1);
        }
    }
}

proof fn lemma_window_block(s: Seq<char>, lo: int, hi: int, d: int, i: int)
    requires
        0 <= lo <= hi <= s.len(),
        0 <= i <= hi - lo,
    ensures
        block_end(s.subrange(lo, hi), d, i) == min_int(block_end(s, d, lo + i), hi) - lo,
    decreases hi - lo - i,
{
    let t = s.subrange(lo, hi);
    let p = lo + i;
    if i + 1 >= t.len() {
        lemma_block_end(s, d, p);
        if i + 1 == t.len() && p + 1 < s.len() {
            if s[p] == '/' && s[p + 1] == '*' {
                lemma_block_end(s, d + 1, p + 2);
            } else if s[p] == '*' && s[p + 1] == '/' {
                if d - 1 != 0 {
                    lemma_block_end(s, d - 1, p + 2);
                }
            } else {
                lemma_block_end(s, d, p + 1);
            }
        }
    } else {
        assert(t[i] == s[p]);
        assert(t[i + 1] == s[p + 1]);
        if t[i] == '/' && t[i + 1] == '*' {
            lemma_window_block(s, lo, hi, d + 1, i + 2);
        } else if t[i] == '*' && t[i + 1] == '/' {
            if d - 1 != 0 {
                lemma_window_block(s, lo, hi, d - 1, i + 2);
            }
        } else {
            lemma_window_block(s, lo, hi, d, i + 1);
        }
    }
}

proof fn lemma_window_tag(s: Seq<char>, lo: int, hi: int, i: int)
    requires
        0 <= lo <= hi <= s.len(),
        0 <= i <= hi - lo,
    ensures
        tag_end(s.subrange(lo, hi), i) == min_int(tag_end(s, lo + i), hi) - lo,
    decreases hi - lo - i,
{
    let t = s.subrange(lo, hi);
    if i == t.len() {
        lemma_tag_end(s, lo + i);
    } else {
        assert(t[i] == s[lo + i]);
        if is_tag_char(t[i]) {
            lemma_window_tag(s, lo, hi, i + 1);
        }
    }
}

proof fn lemma_find_tag_ge(s: Seq<char>, tag: Seq<char>, k: int)
    requires
        0 <= k,
    ensures
        find_tag(s, tag, k) >= min_int(k + tag.len(), s.len() as int),
    decreases s.len() + 1 - k,
{
    if k + tag.len() <= s.len() && s.subrange(k, k + tag.len()) != tag {
        lemma_find_tag_ge(s, tag, k + 1);
    }
}

proof fn lemma_window_find(s: Seq<char>, lo: int, hi: int, tag: Seq<char>, k: int)
    requires
        0 <= lo <= hi <= s.len(),
        0 <= k,
    ensures
        find_tag(s.subrange(lo, hi), tag, k) == min_int(find_tag(s, tag, lo + k), hi) - lo,
    decreases hi - lo + 1 - k,
{
    let t = s.subrange(lo, hi);
    if k + tag.len() > t.len() {
        lemma_find_tag_ge(s, tag, lo + k);
    } else {
        assert(t.subrange(k, k + tag.len()) =~= s.subrange(lo + k, lo + k + tag.len()));
        if t.subrange(k, k + tag.len()) != tag {
            lemma_window_find(s, lo, hi, tag, k + 1);
        }
    }
}

proof fn lemma_window_dollar(s: Seq<char>, lo: int, hi: int, i: int)
    requires
        0 <= lo <= hi <= s.len(),
        0 <= i < hi - lo,
        s[lo + i] == '$',
        window_ok(s, lo, hi),
    ensures
        after_dollar(s.subrange(lo, hi), i) == min_int(after_dollar(s, lo + i), hi) - lo,
{
    let t = s.subrange(lo, hi);
    let p = lo + i;
    assert(t[i] == s[p]);
    if i + 1 < t.len() {
        assert(t[i + 1] == s[p + 1]);
    }
    if p + 1 < s.len() && is_ascii_digit(s[p + 1]) {
        if i + 1 >= t.len() {
            assert(p + 1 == hi);
            assert(is_tag_char(s[hi]));
        }
    } else {
        lemma_window_tag(s, lo, hi, i + 1);
        lemma_tag_end(s, p + 1);
        let js = tag_end(s, p + 1);
        if js > hi {
            assert(is_tag_char(s[hi]));
            if hi - 1 > p {
                assert(is_tag_char(s[hi - 1]));
            }
        }
        assert(js <= hi);
        if js == hi {
            if hi < s.len() && s[hi] == '$' {
                if hi - 1 > p {
                    assert(is_tag_char(s[hi - 1]));
                }
            }
        } else {
            assert(t[js - lo] == s[js]);
            if s[js] == '$' {
                assert(t.subrange(i, js - lo + 1) =~= s.subrange(p, js + 1));
                lemma_window_find(s, lo, hi, s.subrange(p, js + 1), js - lo + 1);
            }
        }
    }
}

/// On a window, the walk takes the step it takes on the whole input, cut
/// off at the window's end.
pub proof fn lemma_window_step(s: Seq<char>, lo: int, hi: int, i: int)
    requires
        0 <= lo <= hi <= s.len(),
        0 <= i < hi - lo,
        window_ok(s, lo, hi),
    ensures
        split_step(s.subrange(lo, hi), i) == min_int(split_step(s, lo + i), hi) - lo,
{
    let t = s.subrange(lo, hi);
    let p = lo + i;
    assert(t[i] == s[p]);
    if i + 1 < t.len() {
        assert(t[i + 1] == s[p + 1]);
    }
    lemma_split_step(s, p);
    if is_quote(s[p]) {
        lemma_window_quoted(s, lo, hi, s[p], i + 1);
    } else if is_line_comment_at(s, p) {
        if i + 1 < t.len() {
            lemma_window_line(s, lo, hi, i);
        }
    } else if is_block_comment_at(s, p) {
        if i + 1 < t.len() {
            lemma_window_block(s, lo, hi, 0, i);
        } else {
            lemma_block_end(s, 1, p + 2);
        }
    } else if s[p] == '$' {
        lemma_window_dollar(s, lo, hi, i);
    }
}

/// Leading whitespace reads the same on a window as on the whole input.
pub proof fn lemma_window_ws_first(s: Seq<char>, lo: int, hi: int, i: int, j: int)
    requires
        0 <= lo <= hi <= s.len(),
        0 <= i <= j <= hi - lo,
    ensures
        ws_first(s.subrange(lo, hi), i, j) == ws_first(s, lo + i, lo + j) - lo,
    decreases j - i,
{
    if i < j {
        assert(s.subrange(lo, hi)[i] == s[lo + i]);
        if is_ws(s[lo + i]) {
            lemma_window_ws_first(s, lo, hi, i + 1, j);
        }
    }
}

/// Trailing whitespace reads the same on a window as on the whole input.
pub proof fn lemma_window_ws_last(s: Seq<char>, lo: int, hi: int, i: int, j: int)
    requires
        0 <= lo <= hi <= s.len(),
        0 <= i <= j <= hi - lo,
    ensures
        ws_last(s.subrange(lo, hi), i, j) == ws_last(s, lo + i, lo + j) - lo,
    decreases j - i,
{
    if i < j {
        assert(s.subrange(lo, hi)[j - 1] == s[lo + j - 1]);
        if is_ws(s[lo + j - 1]) {
            lemma_window_ws_last(s, lo, hi, i, j - 1);
        }
    }
}

/// A statement reads the same on a window as on the whole input.
proof fn lemma_window_statement(s: Seq<char>, lo: int, hi: int, a: int, b: int)
    requires
        0 <= lo <= hi <= s.len(),
        0 <= a <= b <= hi - lo,
    ensures
        statement_spec(s.subrange(lo, hi), a, b) == statement_spec(s, lo + a, lo + b),
{
    let t = s.subrange(lo, hi);
    lemma_window_ws_first(s, lo, hi, a, b);
    lemma_ws_first(t, a, b);
    let f = ws_first(t, a, b);
    lemma_window_ws_last(s, lo, hi, f, b);
    lemma_ws_last(t, f, b);
    let l = ws_last(t, f, b);
    assert(trim_range(t, a, b) == (f, l));
    assert(trim_range(s, lo + a, lo + b) == (lo + f, lo + l));
    if f < l {
        assert(t.subrange(f, l) =~= s.subrange(lo + f, lo + l));
    }
}

// -----------------------------------------------------------------------------
//                     Splitting a statement again
// -----------------------------------------------------------------------------

proof fn lemma_clear_skip_ws(s: Seq<char>, a: int, lo: int, e: int)
    requires
        0 <= a <= lo <= e <= s.len(),
        clear(s, a, e),
        forall|k: int| a <= k < lo ==> is_ws(#[trigger] s[k]),
    ensures
        clear(s, lo, e),
    decreases lo - a,
{
    if a < lo {
        assert(is_ws(s[a]));
        assert(split_step(s, a) == a + 1);
        lemma_clear_skip_ws(s, a + 1, lo, e);
    }
}

proof fn lemma_clear_extend(s: Seq<char>, a: int, p: int)
    requires
        0 <= a <= p < s.len(),
        clear(s, a, p),
        s[p] != ';',
    ensures
        clear(s, a, split_step(s, p)),
    decreases p - a,
{
    lemma_split_step(s, p);
    let j = split_step(s, p);
    if a == p {
        assert(clear(s, j, j));
    } else {
        lemma_split_step(s, a);
        lemma_clear_le(s, split_step(s, a), p);
        lemma_clear_extend(s, split_step(s, a), p);
    }
}

/// On a window that the walk crosses without a top-level `;`, the window
/// is one statement.
proof fn lemma_clear_window(s: Seq<char>, lo: int, hi: int, e: int, i: int, st: int)
    requires
        0 <= lo <= hi <= e <= s.len(),
        window_ok(s, lo, hi),
        0 <= i <= hi - lo,
        clear(s, lo + i, e),
    ensures
        split_from(s.subrange(lo, hi), i, st) == statement_spec(s.subrange(lo, hi), st, hi - lo),
    decreases hi - lo - i,
{
    let t = s.subrange(lo, hi);
    let p = lo + i;
    if i < t.len() {
        assert(t[i] == s[p]);
        lemma_split_step(s, p);
        lemma_window_step(s, lo, hi, i);
        let j = split_step(s, p);
        if j < hi {
            lemma_clear_window(s, lo, hi, e, j - lo, st);
        }
    }
}

proof fn lemma_statement_again(s: Seq<char>, a: int, e: int)
    requires
        0 <= a <= e <= s.len(),
        clear(s, a, e),
        e == s.len() || s[e] == ';',
    ensures
        forall|k: int|
            0 <= k < statement_spec(s, a, e).len() ==> split_spec(
                #[trigger] statement_spec(s, a, e)[k],
            ) == seq![statement_spec(s, a, e)[k]],
{
    lemma_ws_first(s, a, e);
    let lo = ws_first(s, a, e);
    lemma_ws_last(s, lo, e);
    let hi = ws_last(s, lo, e);
    assert(trim_range(s, a, e) == (lo, hi));
    if lo < hi {
        lemma_clear_skip_ws(s, a, lo, e);
        if hi < e {
            assert(is_ws(s[hi]));
        }
        lemma_clear_window(s, lo, hi, e, 0, 0);
        let t = s.subrange(lo, hi);
        assert(t[0] == s[lo]);
        assert(t[t.len() - 1] == s[hi - 1]);
        assert(ws_first(t, 0, t.len() as int) == 0);
        assert(ws_last(t, 0, t.len() as int) == t.len());
        assert(t.subrange(0, t.len() as int) =~= t);
        assert(statement_spec(t, 0, t.len() as int) == seq![t]);
        assert(split_spec(t) == seq![t]);
        assert(statement_spec(s, a, e) == seq![t]);
    }
}

proof fn lemma_split_from_again(s: Seq<char>, i: int, st: int)
    requires
        0 <= st <= i <= s.len(),
        clear(s, st, i),
    ensures
        forall|k: int|
            0 <= k < split_from(s, i, st).len() ==> split_spec(#[trigger] split_from(s, i, st)[k])
                == seq![split_from(s, i, st)[k]],
    decreases s.len() - i,
{
    if i == s.len() {
        lemma_statement_again(s, st, i);
        assert(split_from(s, i, st) == statement_spec(s, st, i));
    } else if s[i] == ';' {
        lemma_statement_again(s, st, i);
        lemma_split_from_again(s, i + 1, i + 1);
        let x = statement_spec(s, st, i);
        let y = split_from(s, i + 1, i + 1);
        assert(split_from(s, i, st) == x + y);
        assert forall|k: int| 0 <= k < (x + y).len() implies split_spec(#[trigger] (x + y)[k])
            == seq![(x + y)[k]] by {
            if k < x.len() {
                assert((x + y)[k] == x[k]);
            } else {
                assert((x + y)[k] == y[k - x.len()]);
            }
        }
    } else {
        lemma_split_step(s, i);
        lemma_clear_extend(s, st, i);
        lemma_split_from_again(s, split_step(s, i), st);
        assert(split_from(s, i, st) == split_from(s, split_step(s, i), st));
    }
}

/// A statement that splitting a script returns splits again into itself
/// alone.
pub proof fn lemma_split_again(s: Seq<char>, k: int)
    requires
        0 <= k < split_spec(s).len(),
    ensures
        split_spec(split_spec(s)[k]) == seq![split_spec(s)[k]],
{
    lemma_split_from_again(s, 0, 0);
}

// -----------------------------------------------------------------------------
//                     Splitting a joined script
// -----------------------------------------------------------------------------

proof fn lemma_reaches_widen(s: Seq<char>, hi: int, p: int, e: int)
    requires
        0 <= p,
        0 <= e < hi <= s.len(),
        window_ok(s, 0, hi),
        reaches(s.subrange(0, hi), p, e),
    ensures
        reaches(s, p, e),
    decreases e - p,
{
    let t = s.subrange(0, hi);
    if p < e {
        assert(t[p] == s[p]);
        if s[p] == ';' {
            lemma_reaches_widen(s, hi, p + 1, e);
        } else {
            lemma_split_step(t, p);
            lemma_window_step(s, 0, hi, p);
            let j = split_step(t, p);
            lemma_reaches_le(t, j, e);
            lemma_reaches_widen(s, hi, j, e);
        }
    }
}

proof fn lemma_split_upto(s: Seq<char>, e: int, p: int, st: int)
    requires
        0 <= st <= p <= e < s.len(),
        s[e] == ';',
        reaches(s, p, e),
    ensures
        split_from(s, p, st) == split_from(s.subrange(0, e), p, st) + split_from(s, e + 1, e + 1),
    decreases e - p,
{
    let a = s.subrange(0, e);
    if p == e {
        lemma_window_statement(s, 0, e, st, e);
    } else {
        assert(a[p] == s[p]);
        if s[p] == ';' {
            lemma_window_statement(s, 0, e, st, p);
            lemma_split_upto(s, e, p + 1, p + 1);
            let x = statement_spec(s, st, p);
            let y = split_from(a, p + 1, p + 1);
            let r = split_from(s, e + 1, e + 1);
            assert(x + (y + r) =~= (x + y) + r);
        } else {
            lemma_split_step(s, p);
            lemma_window_step(s, 0, e, p);
            lemma_reaches_le(s, split_step(s, p), e);
            lemma_split_upto(s, e, split_step(s, p), st);
        }
    }
}

proof fn lemma_split_shift(s: Seq<char>, d: int, i: int, st: int)
    requires
        0 <= d,
        0 <= st <= i <= s.len() - d,
    ensures
        split_from(s, d + i, d + st) == split_from(s.subrange(d, s.len() as int), i, st),
    decreases s.len() - d - i,
{
    let b = s.subrange(d, s.len() as int);
    if i == b.len() {
        lemma_window_statement(s, d, s.len() as int, st, i);
    } else {
        assert(b[i] == s[d + i]);
        if s[d + i] == ';' {
            lemma_window_statement(s, d, s.len() as int, st, i);
            lemma_split_shift(s, d, i + 1, i + 1);
        } else {
            lemma_split_step(s, d + i);
            lemma_window_step(s, d, s.len() as int, i);
            lemma_split_shift(s, d, split_step(s, d + i) - d, st);
        }
    }
}

/// Splitting `a`, a `;` and `b` gives the statements of `a` followed by
/// those of `b`, where `a` ends at top level.
pub proof fn lemma_split_concat(a: Seq<char>, b: Seq<char>)
    requires
        ends_at_top_level(a),
    ensures
        split_spec(a + seq![';'] + b) == split_spec(a) + split_spec(b),
{
    let s = a + seq![';'] + b;
    let n = a.len() as int;
    assert(s.subrange(0, n + 1) =~= a + seq![';']);
    assert(s[n] == ';');
    lemma_reaches_widen(s, n + 1, 0, n);
    lemma_split_upto(s, n, 0, 0);
    assert(s.subrange(0, n) =~= a);
    lemma_split_shift(s, n + 1, 0, 0);
    assert(s.subrange(n + 1, s.len() as int) =~= b);
}

} // verus!

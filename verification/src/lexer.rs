//! Where SQL text is structural and where it is opaque.
//!
//! Two callers need the same answer: the query builder, to find placeholders,
//! and the migrator, to find statement boundaries. Both have to skip string
//! literals, comments and dollar-quoted bodies, so both walk the same
//! primitives. The text is walked one character at a time; every delimiter
//! is ASCII, so no decision depends on how a character is encoded.
use vstd::prelude::*;

use vstd::string::StrSliceExecFns;
use vstd::utf8::{char_is_scalar, encode_scalar, encode_utf8};

use crate::text::{
    chars_of, is_ws, lemma_ws_first, lemma_ws_last, push_chars, trim, trim_bounds, trim_range,
    ws_first, ws_last,
};

verus! {

// -----------------------------------------------------------------------------
//                         What each construct spans
// -----------------------------------------------------------------------------

pub open spec fn is_quote(c: char) -> bool {
    c == '\'' || c == '"' || c == '`'
}

pub open spec fn is_ascii_digit(c: char) -> bool {
    '0' <= c && c <= '9'
}

pub open spec fn is_ascii_alnum(c: char) -> bool {
    is_ascii_digit(c) || ('a' <= c && c <= 'z') || ('A' <= c && c <= 'Z')
}

/// A character that may stand in a dollar-quote tag.
pub open spec fn is_tag_char(c: char) -> bool {
    is_ascii_alnum(c) || c == '_'
}

/// Where a literal quoted by `q` ends, reading from `i`: a backslash escapes
/// the next character, a doubled quote is an escaped quote.
pub open spec fn quoted_end(s: Seq<char>, q: char, i: int) -> int
    decreases s.len() + 1 - i,
{
    if i >= s.len() {
        s.len() as int
    } else if s[i] == '\\' {
        quoted_end(s, q, i + 2)
    } else if s[i] == q {
        if i + 1 < s.len() && s[i + 1] == q {
            quoted_end(s, q, i + 2)
        } else {
            i + 1
        }
    } else {
        quoted_end(s, q, i + 1)
    }
}

/// Just past the literal whose opening quote is at `open`.
pub open spec fn skip_quoted_spec(s: Seq<char>, open: int) -> int {
    quoted_end(s, s[open], open + 1)
}

/// Just past the first line feed at or after `i`, or the end of input.
pub open spec fn line_end(s: Seq<char>, i: int) -> int
    decreases s.len() - i,
{
    if i >= s.len() {
        s.len() as int
    } else if s[i] == '\n' {
        i + 1
    } else {
        line_end(s, i + 1)
    }
}

/// Where a block comment ends, reading from `i` at nesting `depth`.
pub open spec fn block_end(s: Seq<char>, depth: int, i: int) -> int
    decreases s.len() - i,
{
    if i + 1 >= s.len() {
        s.len() as int
    } else if s[i] == '/' && s[i + 1] == '*' {
        block_end(s, depth + 1, i + 2)
    } else if s[i] == '*' && s[i + 1] == '/' {
        if depth - 1 == 0 {
            i + 2
        } else {
            block_end(s, depth - 1, i + 2)
        }
    } else {
        block_end(s, depth, i + 1)
    }
}

/// The end of the run of tag characters that starts at `i`.
pub open spec fn tag_end(s: Seq<char>, i: int) -> int
    decreases s.len() - i,
{
    if 0 <= i < s.len() && is_tag_char(s[i]) {
        tag_end(s, i + 1)
    } else {
        i
    }
}

/// Just past the first occurrence of `tag` at or after `k`, or the end of
/// input.
pub open spec fn find_tag(s: Seq<char>, tag: Seq<char>, k: int) -> int
    decreases s.len() + 1 - k,
{
    if k + tag.len() > s.len() || k < 0 {
        s.len() as int
    } else if s.subrange(k, k + tag.len()) == tag {
        k + tag.len()
    } else {
        find_tag(s, tag, k + 1)
    }
}

/// Just past the dollar-quoted body whose `$` is at `open`, or `None` where
/// that `$` opens no body, as in a `$1` placeholder written out by hand.
pub open spec fn skip_dollar_spec(s: Seq<char>, open: int) -> Option<int> {
    if open + 1 < s.len() && is_ascii_digit(s[open + 1]) {
        None
    } else {
        let j = tag_end(s, open + 1);
        if j >= s.len() || s[j] != '$' {
            None
        } else {
            Some(find_tag(s, s.subrange(open, j + 1), j + 1))
        }
    }
}

/// A quoted literal ends within the input, and not before where it is read from.
pub proof fn lemma_quoted_end(s: Seq<char>, q: char, i: int)
    requires
        0 <= i,
    ensures
        quoted_end(s, q, i) <= s.len(),
        i <= s.len() ==> i <= quoted_end(s, q, i),
    decreases s.len() + 1 - i,
{
    if i < s.len() {
        if s[i] == '\\' {
            lemma_quoted_end(s, q, i + 2);
        } else if s[i] == q {
            if i + 1 < s.len() && s[i + 1] == q {
                lemma_quoted_end(s, q, i + 2);
            }
        } else {
            lemma_quoted_end(s, q, i + 1);
        }
    }
}

/// A line comment ends past its first character and within the input.
pub proof fn lemma_line_end(s: Seq<char>, i: int)
    requires
        0 <= i < s.len(),
    ensures
        i < line_end(s, i) <= s.len(),
    decreases s.len() - i,
{
    if s[i] != '\n' {
        if i + 1 < s.len() {
            lemma_line_end(s, i + 1);
        } else {
            assert(line_end(s, i + 1) == s.len());
        }
    }
}

/// A block comment ends within the input, past where it is read from.
pub proof fn lemma_block_end(s: Seq<char>, depth: int, i: int)
    requires
        0 <= i <= s.len(),
    ensures
        i <= block_end(s, depth, i) <= s.len(),
        i + 1 < s.len() ==> i < block_end(s, depth, i),
    decreases s.len() - i,
{
    if i + 1 < s.len() {
        if s[i] == '/' && s[i + 1] == '*' {
            lemma_block_end(s, depth + 1, i + 2);
        } else if s[i] == '*' && s[i + 1] == '/' {
            if depth - 1 != 0 {
                lemma_block_end(s, depth - 1, i + 2);
            }
        } else {
            lemma_block_end(s, depth, i + 1);
        }
    }
}

/// A run of tag characters ends no earlier than it starts, and holds tag characters only.
pub proof fn lemma_tag_end(s: Seq<char>, i: int)
    requires
        0 <= i,
    ensures
        i <= tag_end(s, i),
        tag_end(s, i) <= s.len() || tag_end(s, i) == i,
        forall|k: int| i <= k < tag_end(s, i) ==> is_tag_char(#[trigger] s[k]),
    decreases s.len() - i,
{
    if 0 <= i < s.len() && is_tag_char(s[i]) {
        lemma_tag_end(s, i + 1);
    }
}

/// The search for a closing tag ends within the input.
pub proof fn lemma_find_tag(s: Seq<char>, tag: Seq<char>, k: int)
    requires
        0 <= k <= s.len(),
    ensures
        k <= find_tag(s, tag, k) <= s.len(),
    decreases s.len() + 1 - k,
{
    if k + tag.len() <= s.len() && s.subrange(k, k + tag.len()) != tag {
        assert(tag.len() > 0) by {
            if tag.len() == 0 {
                assert(s.subrange(k, k + tag.len()) =~= tag);
            }
        }
        lemma_find_tag(s, tag, k + 1);
    }
}

/// A dollar-quoted body ends past its `$` and within the input.
pub proof fn lemma_skip_dollar(s: Seq<char>, open: int)
    requires
        0 <= open < s.len(),
    ensures
        skip_dollar_spec(s, open) matches Some(j) ==> open < j <= s.len(),
{
    lemma_tag_end(s, open + 1);
    let j = tag_end(s, open + 1);
    if j < s.len() {
        lemma_find_tag(s, s.subrange(open, j + 1), j + 1);
    }
}

// -----------------------------------------------------------------------------
//                              The skip functions
// -----------------------------------------------------------------------------

/// Takes the index of an opening quote and returns the index just past the
/// closing one, or the end of input where the literal is unterminated.
pub fn skip_quoted(s: &[char], open: usize) -> (r: usize)
    requires
        open < s.len(),
    ensures
        r as int == skip_quoted_spec(s@, open as int),
        open < r <= s.len(),
{
    let quote = s[open];
    let mut i = open + 1;
    proof {
        lemma_quoted_end(s@, quote, i as int);
    }
    while i < s.len()
        invariant
            open < i <= s.len() + 1,
            quote == s@[open as int],
            quoted_end(s@, quote, i as int) == skip_quoted_spec(s@, open as int),
        decreases s.len() + 1 - i,
    {
        if s[i] == '\\' {
            if s.len() - i <= 2 {
                assert(quoted_end(s@, quote, i + 2) == s.len());
                return s.len();
            }
            i = i + 2;
        } else if s[i] == quote {
            if i + 1 < s.len() && s[i + 1] == quote {
                i = i + 2;
            } else {
                return i + 1;
            }
        } else {
            i = i + 1;
        }
    }
    s.len()
}

/// Takes the index of the `-` that opens a line comment and returns the index
/// just past the line feed that ends it, or the end of input.
pub fn skip_line_comment(s: &[char], open: usize) -> (r: usize)
    requires
        open < s.len(),
    ensures
        r as int == line_end(s@, open as int),
        open < r <= s.len(),
{
    proof {
        lemma_line_end(s@, open as int);
    }
    let mut i = open;
    while i < s.len()
        invariant
            open <= i <= s.len(),
            line_end(s@, i as int) == line_end(s@, open as int),
        decreases s.len() - i,
    {
        if s[i] == '\n' {
            return i + 1;
        }
        i = i + 1;
    }
    s.len()
}

/// Takes the index of the `/` that opens a block comment and returns the
/// index just past the `*/` that closes it, counting nested comments, or the
/// end of input.
pub fn skip_block_comment(s: &[char], open: usize) -> (r: usize)
    requires
        open + 1 < s.len(),
        s@[open as int] == '/',
        s@[open + 1] == '*',
    ensures
        r as int == block_end(s@, 0, open as int),
        open < r <= s.len(),
{
    proof {
        lemma_block_end(s@, 0, open as int);
    }
    let mut depth: usize = 0;
    let mut i = open;
    while s.len() - i > 1
        invariant
            open <= i <= s.len(),
            depth <= i,
            i == open ==> depth == 0,
            i > open ==> depth >= 1,
            i == open ==> s@[open as int] == '/' && s@[open + 1] == '*',
            block_end(s@, depth as int, i as int) == block_end(s@, 0, open as int),
        decreases s.len() - i,
    {
        if s[i] == '/' && s[i + 1] == '*' {
            depth = depth + 1;
            i = i + 2;
        } else if s[i] == '*' && s[i + 1] == '/' {
            depth = depth - 1;
            i = i + 2;
            if depth == 0 {
                return i;
            }
        } else {
            i = i + 1;
        }
    }
    s.len()
}

/// Takes the index of a `$` and returns the index just past the body it
/// opens, or the end of input where the body is unterminated; `None` where
/// the `$` opens no body.
pub fn skip_dollar_quoted(s: &[char], open: usize) -> (r: Option<usize>)
    requires
        open < s.len(),
    ensures
        r matches Some(j) ==> skip_dollar_spec(s@, open as int) == Some(j as int),
        r is None ==> skip_dollar_spec(s@, open as int) is None,
        r matches Some(j) ==> open < j <= s.len(),
{
    proof {
        lemma_skip_dollar(s@, open as int);
    }
    let mut i = open + 1;
    while i < s.len() && (is_ascii_alnum_char(s[i]) || s[i] == '_')
        invariant
            open < i <= s.len(),
            tag_end(s@, open + 1) == tag_end(s@, i as int),
            i > open + 1 ==> !is_ascii_digit(s@[open + 1]),
        decreases s.len() - i,
    {
        if i == open + 1 && '0' <= s[i] && s[i] <= '9' {
            return None;
        }
        i = i + 1;
    }
    if i == open + 1 && i < s.len() && '0' <= s[i] && s[i] <= '9' {
        return None;
    }
    if i >= s.len() || s[i] != '$' {
        return None;
    }
    // The tag is `s[open..=i]`; the body starts just past it.
    let tag_len = i + 1 - open;
    let mut k = i + 1;
    assert(tag_end(s@, i as int) == i);
    while tag_len <= s.len() - k
        invariant
            open < i < s.len(),
            tag_len == i + 1 - open,
            tag_end(s@, open + 1) == i,
            s@[i as int] == '$',
            !(open + 1 < s.len() && is_ascii_digit(s@[open + 1])),
            i + 1 <= k <= s.len(),
            find_tag(s@, s@.subrange(open as int, i + 1), i + 1) == find_tag(
                s@,
                s@.subrange(open as int, i + 1),
                k as int,
            ),
        decreases s.len() - k,
    {
        if matches_at(s, open, tag_len, k) {
            assert(s@.subrange(open as int, i + 1).len() == tag_len);
            assert(s@.subrange(k as int, k + tag_len) == s@.subrange(open as int, i + 1));
            return Some(k + tag_len);
        }
        k = k + 1;
    }
    Some(s.len())
}

fn is_ascii_alnum_char(c: char) -> (r: bool)
    ensures
        r == is_ascii_alnum(c),
{
    ('0' <= c && c <= '9') || ('a' <= c && c <= 'z') || ('A' <= c && c <= 'Z')
}

/// Whether `s[k..k + len]` equals `s[from..from + len]`.
fn matches_at(s: &[char], from: usize, len: usize, k: usize) -> (r: bool)
    requires
        from + len <= s.len(),
        k + len <= s.len(),
    ensures
        r == (s@.subrange(k as int, k + len) == s@.subrange(from as int, from + len)),
{
    let mut j: usize = 0;
    while j < len
        invariant
            j <= len,
            from + len <= s.len(),
            k + len <= s.len(),
            s@.subrange(k as int, k + j) =~= s@.subrange(from as int, from + j),
        decreases len - j,
    {
        if s[k + j] != s[from + j] {
            assert(s@.subrange(k as int, k + len)[j as int] != s@.subrange(
                from as int,
                from + len,
            )[j as int]);
            return false;
        }
        j = j + 1;
        assert(s@.subrange(k as int, k + j) =~= s@.subrange(k as int, k + j - 1).push(s@[k + j - 1]));
        assert(s@.subrange(from as int, from + j) =~= s@.subrange(from as int, from + j - 1).push(
            s@[from + j - 1],
        ));
    }
    true
}

// -----------------------------------------------------------------------------
//                         Placeholders and statements
// -----------------------------------------------------------------------------

/// A piece of a scanned statement, as the specification sees it.
pub enum PieceModel {
    /// The range `[start, end)` of the source.
    Raw(int, int),
    /// A run that contained `??`, already collapsed to a single `?`.
    Escaped(Seq<char>),
    /// An unquoted `?`.
    Param,
}

/// A piece of a scanned statement.
///
/// Raw pieces are ranges into the source rather than copies, so that the
/// caller decides whether to borrow or to copy. [scan] gives byte ranges,
/// which slice the `&str` it was given; the character walk underneath it
/// counts characters.
pub enum Piece {
    Raw(usize, usize),
    /// A run that contained `??`, already collapsed to a single `?`. Splicing
    /// it here rather than splitting the run keeps the escaped `?` glued to
    /// what follows, which is what `?|` and `?&` need.
    Escaped(String),
    Param,
}

impl View for Piece {
    type V = PieceModel;

    open spec fn view(&self) -> PieceModel {
        match self {
            Piece::Raw(a, b) => PieceModel::Raw(*a as int, *b as int),
            Piece::Escaped(t) => PieceModel::Escaped(t@),
            Piece::Param => PieceModel::Param,
        }
    }
}

pub open spec fn pieces_view(v: Seq<Piece>) -> Seq<PieceModel> {
    v.map_values(|p: Piece| p@)
}

pub open spec fn escaped_view(e: Option<Vec<char>>) -> Option<Seq<char>> {
    match e {
        Some(v) => Some(v@),
        None => None,
    }
}

/// What ending a run contributes: the trimmed run, where it is not blank.
pub open spec fn flush_spec(s: Seq<char>, escaped: Option<Seq<char>>, a: int, b: int) -> Seq<
    PieceModel,
> {
    match escaped {
        Some(t) => {
            let text = trim(t + s.subrange(a, b));
            if text.len() > 0 {
                seq![PieceModel::Escaped(text)]
            } else {
                seq![]
            }
        },
        None => {
            let (lo, hi) = trim_range(s, a, b);
            if lo < hi {
                seq![PieceModel::Raw(lo, hi)]
            } else {
                seq![]
            }
        },
    }
}

pub open spec fn escaped_text(escaped: Option<Seq<char>>) -> Seq<char> {
    match escaped {
        Some(t) => t,
        None => seq![],
    }
}

pub open spec fn is_line_comment_at(s: Seq<char>, i: int) -> bool {
    s[i] == '-' && i + 1 < s.len() && s[i + 1] == '-'
}

pub open spec fn is_block_comment_at(s: Seq<char>, i: int) -> bool {
    s[i] == '/' && i + 1 < s.len() && s[i + 1] == '*'
}

/// Where the walk continues after a `$` at `i`.
pub open spec fn after_dollar(s: Seq<char>, i: int) -> int {
    match skip_dollar_spec(s, i) {
        Some(j) => j,
        None => i + 1,
    }
}

/// The pieces of `s` from position `i` on, where the current run started at
/// `start` and `escaped` holds what the run collected before its last `??`.
///
/// Quoted literals and dollar-quoted bodies are opaque; a comment ends the
/// current run; `??` is a literal `?`; any other `?` is a placeholder.
pub open spec fn scan_from(s: Seq<char>, i: int, start: int, escaped: Option<Seq<char>>) -> Seq<
    PieceModel,
>
    decreases s.len() - i,
{
    if i < 0 || i >= s.len() {
        flush_spec(s, escaped, start, s.len() as int)
    } else if is_quote(s[i]) {
        let j = skip_quoted_spec(s, i);
        proof {
            lemma_quoted_end(s, s[i], i + 1);
        }
        scan_from(s, j, start, escaped)
    } else if is_line_comment_at(s, i) {
        let j = line_end(s, i);
        proof {
            lemma_line_end(s, i);
        }
        flush_spec(s, escaped, start, i) + scan_from(s, j, j, None)
    } else if is_block_comment_at(s, i) {
        let j = block_end(s, 0, i);
        proof {
            lemma_block_end(s, 0, i);
        }
        flush_spec(s, escaped, start, i) + scan_from(s, j, j, None)
    } else if s[i] == '$' {
        let j = after_dollar(s, i);
        proof {
            lemma_skip_dollar(s, i);
        }
        scan_from(s, j, start, escaped)
    } else if s[i] == '?' && i + 1 < s.len() && s[i + 1] == '?' {
        scan_from(s, i + 2, i + 2, Some(escaped_text(escaped) + s.subrange(start, i + 1)))
    } else if s[i] == '?' {
        flush_spec(s, escaped, start, i) + seq![PieceModel::Param] + scan_from(s, i + 1, i + 1, None)
    } else {
        scan_from(s, i + 1, start, escaped)
    }
}

/// The pieces of `s`: SQL split at its unquoted `?` placeholders.
pub open spec fn scan_spec(s: Seq<char>) -> Seq<PieceModel> {
    scan_from(s, 0, 0, None)
}

/// Ends the current run: pushes it, trimmed, unless it is blank.
fn flush(
    pieces: &mut Vec<Piece>,
    escaped: &mut Option<Vec<char>>,
    s: &[char],
    a: usize,
    b: usize,
)
    requires
        a <= b <= s.len(),
    ensures
        pieces_view(final(pieces)@) == pieces_view(old(pieces)@) + flush_spec(
            s@,
            escaped_view(*old(escaped)),
            a as int,
            b as int,
        ),
        *final(escaped) is None,
{
    let ghost before = pieces@;
    match escaped.take() {
        Some(mut text) => {
            let ghost t0 = text@;
            let mut k = a;
            while k < b
                invariant
                    a <= k <= b <= s.len(),
                    text@ == t0 + s@.subrange(a as int, k as int),
                decreases b - k,
            {
                text.push(s[k]);
                k = k + 1;
                assert(s@.subrange(a as int, k as int) =~= s@.subrange(a as int, k - 1).push(
                    s@[k - 1],
                ));
            }
            assert(text@ =~= t0 + s@.subrange(a as int, b as int));
            let (lo, hi) = trim_bounds(text.as_slice(), 0, text.len());
            if lo < hi {
                let mut out = String::new();
                push_chars(&mut out, text.as_slice(), lo, hi);
                assert(out@ =~= trim(text@));
                pieces.push(Piece::Escaped(out));
                assert(pieces_view(pieces@) =~= pieces_view(before) + flush_spec(
                    s@,
                    escaped_view(*old(escaped)),
                    a as int,
                    b as int,
                ));
            } else {
                assert(trim(text@).len() == 0);
                assert(pieces_view(pieces@) =~= pieces_view(before) + flush_spec(
                    s@,
                    escaped_view(*old(escaped)),
                    a as int,
                    b as int,
                ));
            }
        },
        None => {
            let (lo, hi) = trim_bounds(s, a, b);
            if lo < hi {
                pieces.push(Piece::Raw(lo, hi));
            }
            assert(pieces_view(pieces@) =~= pieces_view(before) + flush_spec(
                s@,
                escaped_view(*old(escaped)),
                a as int,
                b as int,
            ));
        },
    }
}

/// Splits the characters of a statement at its unquoted `?` placeholders;
/// raw pieces are ranges of character positions.
pub fn scan_chars(s: &[char]) -> (r: Vec<Piece>)
    ensures
        pieces_view(r@) == scan_spec(s@),
{
    let mut pieces: Vec<Piece> = Vec::new();
    let mut escaped: Option<Vec<char>> = None;
    let mut start: usize = 0;
    let mut i: usize = 0;
    assert(pieces_view(pieces@) =~= seq![]);
    while i < s.len()
        invariant
            start <= i <= s.len(),
            pieces_view(pieces@) + scan_from(s@, i as int, start as int, escaped_view(escaped))
                == scan_spec(s@),
        decreases s.len() - i,
    {
        let ghost before = pieces_view(pieces@);
        let ghost e0 = escaped_view(escaped);
        let ghost i0 = i as int;
        let ghost st0 = start as int;
        let c = s[i];
        if c == '\'' || c == '"' || c == '`' {
            i = skip_quoted(s, i);
        } else if c == '-' && i + 1 < s.len() && s[i + 1] == '-' {
            flush(&mut pieces, &mut escaped, s, start, i);
            i = skip_line_comment(s, i);
            start = i;
            assert(before + scan_from(s@, i0, st0, e0) =~= pieces_view(pieces@) + scan_from(
                s@,
                i as int,
                start as int,
                None,
            ));
        } else if c == '/' && i + 1 < s.len() && s[i + 1] == '*' {
            flush(&mut pieces, &mut escaped, s, start, i);
            i = skip_block_comment(s, i);
            start = i;
            assert(before + scan_from(s@, i0, st0, e0) =~= pieces_view(pieces@) + scan_from(
                s@,
                i as int,
                start as int,
                None,
            ));
        } else if c == '$' {
            match skip_dollar_quoted(s, i) {
                Some(j) => {
                    i = j;
                },
                None => {
                    i = i + 1;
                },
            }
        } else if c == '?' && i + 1 < s.len() && s[i + 1] == '?' {
            let mut text = match escaped.take() {
                Some(t) => t,
                None => Vec::new(),
            };
            let ghost t0 = text@;
            let mut k = start;
            while k <= i
                invariant
                    start <= k <= i + 1,
                    i < s.len(),
                    text@ == t0 + s@.subrange(start as int, k as int),
                decreases i + 1 - k,
            {
                text.push(s[k]);
                k = k + 1;
                assert(s@.subrange(start as int, k as int) =~= s@.subrange(start as int, k - 1).push(
                    s@[k - 1],
                ));
            }
            escaped = Some(text);
            assert(escaped_text(e0) == t0);
            i = i + 2;
            start = i;
        } else if c == '?' {
            flush(&mut pieces, &mut escaped, s, start, i);
            let ghost mid = pieces_view(pieces@);
            pieces.push(Piece::Param);
            assert(pieces_view(pieces@) =~= mid.push(PieceModel::Param));
            i = i + 1;
            start = i;
            assert(before + scan_from(s@, i0, st0, e0) =~= pieces_view(pieces@) + scan_from(
                s@,
                i as int,
                start as int,
                None,
            ));
        } else {
            i = i + 1;
        }
    }
    flush(&mut pieces, &mut escaped, s, start, s.len());
    pieces
}

// -----------------------------------------------------------------------------
//                          Characters and bytes
// -----------------------------------------------------------------------------

/// Where the character at position `i` of `s` starts in its UTF-8 encoding.
pub open spec fn byte_offset(s: Seq<char>, i: int) -> int {
    encode_utf8(s.subrange(0, i)).len() as int
}

/// A piece with its character positions turned into byte positions.
pub open spec fn byte_piece(s: Seq<char>, p: PieceModel) -> PieceModel {
    match p {
        PieceModel::Raw(a, b) => PieceModel::Raw(byte_offset(s, a), byte_offset(s, b)),
        PieceModel::Escaped(t) => PieceModel::Escaped(t),
        PieceModel::Param => PieceModel::Param,
    }
}

pub open spec fn byte_pieces(s: Seq<char>, ps: Seq<PieceModel>) -> Seq<PieceModel> {
    ps.map_values(|p: PieceModel| byte_piece(s, p))
}

/// The encoding of text put together is the encodings put together.
pub proof fn lemma_encode_utf8_concat(a: Seq<char>, b: Seq<char>)
    ensures
        encode_utf8(a + b) == encode_utf8(a) + encode_utf8(b),
    decreases a.len(),
{
    if a.len() == 0 {
        assert(a + b =~= b);
        assert(encode_utf8(a) =~= Seq::<u8>::empty());
    } else {
        assert((a + b)[0] == a[0]);
        assert((a + b).drop_first() =~= a.drop_first() + b);
        lemma_encode_utf8_concat(a.drop_first(), b);
    }
}

/// The bytes of a range of characters are the bytes between their offsets.
pub proof fn lemma_byte_range(s: Seq<char>, a: int, b: int)
    requires
        0 <= a <= b <= s.len(),
    ensures
        byte_offset(s, a) <= byte_offset(s, b) <= encode_utf8(s).len(),
        encode_utf8(s).subrange(byte_offset(s, a), byte_offset(s, b)) == encode_utf8(
            s.subrange(a, b),
        ),
{
    lemma_encode_utf8_concat(s.subrange(0, a), s.subrange(a, b));
    assert(s.subrange(0, a) + s.subrange(a, b) =~= s.subrange(0, b));
    lemma_encode_utf8_concat(s.subrange(0, b), s.subrange(b, s.len() as int));
    assert(s.subrange(0, b) + s.subrange(b, s.len() as int) =~= s);
    let x = encode_utf8(s.subrange(0, a));
    let y = encode_utf8(s.subrange(a, b));
    let z = encode_utf8(s.subrange(b, s.len() as int));
    assert(encode_utf8(s) == (x + y) + z);
    assert(((x + y) + z).subrange(x.len() as int, (x + y).len() as int) =~= y);
}

/// The number of bytes `c` takes in UTF-8.
fn utf8_width(c: char) -> (w: usize)
    ensures
        w == encode_scalar(c as u32).len(),
{
    proof {
        char_is_scalar(c);
    }
    let u = c as u32;
    if u <= 0x7f {
        1
    } else if u <= 0x7ff {
        2
    } else if u <= 0xffff {
        3
    } else {
        4
    }
}

/// Where each character of `sql` starts in its UTF-8 encoding, and at the
/// end where the encoding ends.
fn byte_offsets(sql: &str, s: &[char]) -> (r: Vec<usize>)
    requires
        s@ == sql@,
    ensures
        r@.len() == s@.len() + 1,
        forall|i: int| 0 <= i <= s@.len() ==> r@[i] == byte_offset(s@, i),
{
    let total = sql.as_bytes().len();
    let mut r: Vec<usize> = Vec::new();
    let mut off: usize = 0;
    assert(s@.subrange(0, 0) =~= Seq::<char>::empty());
    assert(encode_utf8(Seq::<char>::empty()) =~= Seq::<u8>::empty());
    r.push(0);
    let mut i: usize = 0;
    while i < s.len()
        invariant
            i <= s@.len(),
            s@ == sql@,
            total == encode_utf8(s@).len(),
            r@.len() == i + 1,
            off == byte_offset(s@, i as int),
            forall|j: int| 0 <= j <= i ==> r@[j] == byte_offset(s@, j),
        decreases s@.len() - i,
    {
        proof {
            lemma_byte_range(s@, i as int, i + 1);
            assert(s@.subrange(i as int, i + 1) =~= seq![s@[i as int]]);
            assert(seq![s@[i as int]].drop_first() =~= Seq::<char>::empty());
            assert(encode_utf8(Seq::<char>::empty()) =~= Seq::<u8>::empty());
            assert(encode_utf8(seq![s@[i as int]]) =~= encode_scalar(s@[i as int] as u32));
            lemma_encode_utf8_concat(s@.subrange(0, i as int), s@.subrange(i as int, i + 1));
            assert(s@.subrange(0, i as int) + s@.subrange(i as int, i + 1) =~= s@.subrange(
                0,
                i + 1,
            ));
            lemma_byte_range(s@, i + 1, s@.len() as int);
        }
        off = off + utf8_width(s[i]);
        r.push(off);
        i = i + 1;
    }
    r
}

/// Splits SQL at its unquoted `?` placeholders; raw pieces are byte ranges
/// of `sql`.
///
/// `??` is an escaped literal `?`, which is how the Postgres jsonb existence
/// operators `?`, `?|` and `?&` are written. Comments are dropped: they end
/// the current run, and runs rejoin with a single space, which is precisely
/// what a comment means to the server.
pub fn scan(sql: &str) -> (r: Vec<Piece>)
    ensures
        pieces_view(r@) == byte_pieces(sql@, scan_spec(sql@)),
        pieces_wf(sql@, scan_spec(sql@)),
{
    let chars = chars_of(sql);
    let s = chars.as_slice();
    proof {
        lemma_scan_wf(sql@);
    }
    let offsets = byte_offsets(sql, s);
    let pieces = scan_chars(s);
    let ghost ps = scan_spec(s@);
    let mut out: Vec<Piece> = Vec::new();
    let mut k: usize = 0;
    while k < pieces.len()
        invariant
            s@ == sql@,
            ps == scan_spec(s@),
            pieces_view(pieces@) == ps,
            pieces_wf(s@, ps),
            offsets@.len() == s@.len() + 1,
            forall|i: int| 0 <= i <= s@.len() ==> offsets@[i] == byte_offset(s@, i),
            k <= pieces@.len(),
            pieces_view(out@) =~= byte_pieces(s@, ps.take(k as int)),
        decreases pieces@.len() - k,
    {
        assert(ps[k as int] == pieces@[k as int]@);
        assert(piece_wf(s@, ps[k as int]));
        let p = match &pieces[k] {
            Piece::Raw(a, b) => Piece::Raw(offsets[*a], offsets[*b]),
            Piece::Escaped(t) => Piece::Escaped(t.clone()),
            Piece::Param => Piece::Param,
        };
        assert(p@ == byte_piece(s@, ps[k as int]));
        let ghost before = pieces_view(out@);
        out.push(p);
        assert(pieces_view(out@) =~= before.push(byte_piece(s@, ps[k as int])));
        k = k + 1;
        assert(ps.take(k as int) =~= ps.take(k - 1).push(ps[k - 1]));
    }
    assert(ps.take(k as int) =~= ps);
    out
}

/// The statement `s[a..b]` contributes: itself trimmed, unless it is blank.
pub open spec fn statement_spec(s: Seq<char>, a: int, b: int) -> Seq<Seq<char>> {
    let (lo, hi) = trim_range(s, a, b);
    if lo < hi {
        seq![s.subrange(lo, hi)]
    } else {
        seq![]
    }
}

/// The statements of `s` from position `i` on, where the current statement
/// started at `start`. Only a `;` outside literals, comments and
/// dollar-quoted bodies ends a statement.
pub open spec fn split_from(s: Seq<char>, i: int, start: int) -> Seq<Seq<char>>
    decreases s.len() - i,
{
    if i < 0 || i >= s.len() {
        statement_spec(s, start, s.len() as int)
    } else if is_quote(s[i]) {
        let j = skip_quoted_spec(s, i);
        proof {
            lemma_quoted_end(s, s[i], i + 1);
        }
        split_from(s, j, start)
    } else if is_line_comment_at(s, i) {
        let j = line_end(s, i);
        proof {
            lemma_line_end(s, i);
        }
        split_from(s, j, start)
    } else if is_block_comment_at(s, i) {
        let j = block_end(s, 0, i);
        proof {
            lemma_block_end(s, 0, i);
        }
        split_from(s, j, start)
    } else if s[i] == '$' {
        let j = after_dollar(s, i);
        proof {
            lemma_skip_dollar(s, i);
        }
        split_from(s, j, start)
    } else if s[i] == ';' {
        statement_spec(s, start, i) + split_from(s, i + 1, i + 1)
    } else {
        split_from(s, i + 1, start)
    }
}

/// The statements of a script: its text split at top-level semicolons, each
/// trimmed, blank ones dropped.
pub open spec fn split_spec(s: Seq<char>) -> Seq<Seq<char>> {
    split_from(s, 0, 0)
}

pub open spec fn strs_view(v: Seq<&str>) -> Seq<Seq<char>> {
    v.map_values(|t: &str| t@)
}

fn push_statement<'a>(statements: &mut Vec<&'a str>, sql: &'a str, s: &[char], a: usize, b: usize)
    requires
        s@ == sql@,
        a <= b <= s.len(),
    ensures
        strs_view(final(statements)@) == strs_view(old(statements)@) + statement_spec(
            s@,
            a as int,
            b as int,
        ),
{
    let ghost before = statements@;
    let (lo, hi) = trim_bounds(s, a, b);
    if lo < hi {
        statements.push(sql.substring_char(lo, hi));
    }
    assert(strs_view(statements@) =~= strs_view(before) + statement_spec(s@, a as int, b as int));
}

/// Splits a script at its top-level semicolons, so that a `;` inside a string
/// literal, a comment or a `$$` body does not end a statement.
pub fn split_statements(sql: &str) -> (r: Vec<&str>)
    ensures
        strs_view(r@) == split_spec(sql@),
        statements_wf(strs_view(r@)),
{
    proof {
        lemma_split_wf(sql@);
    }
    let chars = chars_of(sql);
    let s = chars.as_slice();
    let mut statements: Vec<&str> = Vec::new();
    let mut start: usize = 0;
    let mut i: usize = 0;
    assert(strs_view(statements@) =~= seq![]);
    while i < s.len()
        invariant
            s@ == sql@,
            start <= i <= s.len(),
            strs_view(statements@) + split_from(s@, i as int, start as int) == split_spec(s@),
        decreases s.len() - i,
    {
        let ghost before = strs_view(statements@);
        let ghost i0 = i as int;
        let ghost st0 = start as int;
        let c = s[i];
        if c == '\'' || c == '"' || c == '`' {
            i = skip_quoted(s, i);
        } else if c == '-' && i + 1 < s.len() && s[i + 1] == '-' {
            i = skip_line_comment(s, i);
        } else if c == '/' && i + 1 < s.len() && s[i + 1] == '*' {
            i = skip_block_comment(s, i);
        } else if c == '$' {
            match skip_dollar_quoted(s, i) {
                Some(j) => {
                    i = j;
                },
                None => {
                    i = i + 1;
                },
            }
        } else if c == ';' {
            push_statement(&mut statements, sql, s, start, i);
            i = i + 1;
            start = i;
            assert(before + split_from(s@, i0, st0) =~= strs_view(statements@) + split_from(
                s@,
                i as int,
                start as int,
            ));
        } else {
            i = i + 1;
        }
    }
    push_statement(&mut statements, sql, s, start, s.len());
    statements
}

// -----------------------------------------------------------------------------
//                          What every scan guarantees
// -----------------------------------------------------------------------------

/// A piece that can be rendered: a raw piece is a non-empty range of `s` that
/// starts and ends outside whitespace, an escaped one a non-empty text.
pub open spec fn piece_wf(s: Seq<char>, p: PieceModel) -> bool {
    match p {
        PieceModel::Raw(a, b) => 0 <= a < b <= s.len() && !is_ws(s[a]) && !is_ws(s[b - 1]),
        PieceModel::Escaped(t) => t.len() > 0,
        PieceModel::Param => true,
    }
}

pub open spec fn pieces_wf(s: Seq<char>, ps: Seq<PieceModel>) -> bool {
    forall|k: int| 0 <= k < ps.len() ==> piece_wf(s, #[trigger] ps[k])
}

/// Ending a run contributes at most one well-formed piece.
proof fn lemma_flush_wf(s: Seq<char>, escaped: Option<Seq<char>>, a: int, b: int)
    requires
        0 <= a <= b <= s.len(),
    ensures
        pieces_wf(s, flush_spec(s, escaped, a, b)),
        flush_spec(s, escaped, a, b).len() <= 1,
{
    lemma_ws_first(s, a, b);
    lemma_ws_last(s, ws_first_of(s, a, b), b);
}

spec fn ws_first_of(s: Seq<char>, a: int, b: int) -> int {
    trim_range(s, a, b).0
}

/// Every piece of a walk from any position is well formed.
proof fn lemma_scan_from_wf(s: Seq<char>, i: int, start: int, escaped: Option<Seq<char>>)
    requires
        0 <= start <= s.len(),
        start <= i || i >= s.len(),
    ensures
        pieces_wf(s, scan_from(s, i, start, escaped)),
    decreases s.len() - i,
{
    if i < 0 || i >= s.len() {
        lemma_flush_wf(s, escaped, start, s.len() as int);
    } else if is_quote(s[i]) {
        lemma_quoted_end(s, s[i], i + 1);
        lemma_scan_from_wf(s, skip_quoted_spec(s, i), start, escaped);
    } else if is_line_comment_at(s, i) {
        lemma_line_end(s, i);
        lemma_flush_wf(s, escaped, start, i);
        let j = line_end(s, i);
        lemma_scan_from_wf(s, j, j, None);
        lemma_concat_wf(s, flush_spec(s, escaped, start, i), scan_from(s, j, j, None));
    } else if is_block_comment_at(s, i) {
        lemma_block_end(s, 0, i);
        lemma_flush_wf(s, escaped, start, i);
        let j = block_end(s, 0, i);
        lemma_scan_from_wf(s, j, j, None);
        lemma_concat_wf(s, flush_spec(s, escaped, start, i), scan_from(s, j, j, None));
    } else if s[i] == '$' {
        lemma_skip_dollar(s, i);
        lemma_scan_from_wf(s, after_dollar(s, i), start, escaped);
    } else if s[i] == '?' && i + 1 < s.len() && s[i + 1] == '?' {
        lemma_scan_from_wf(
            s,
            i + 2,
            i + 2,
            Some(escaped_text(escaped) + s.subrange(start, i + 1)),
        );
    } else if s[i] == '?' {
        lemma_flush_wf(s, escaped, start, i);
        lemma_scan_from_wf(s, i + 1, i + 1, None);
        lemma_concat_wf(s, flush_spec(s, escaped, start, i), seq![PieceModel::Param]);
        lemma_concat_wf(
            s,
            flush_spec(s, escaped, start, i) + seq![PieceModel::Param],
            scan_from(s, i + 1, i + 1, None),
        );
    } else {
        lemma_scan_from_wf(s, i + 1, start, escaped);
    }
}

/// Well-formed pieces put together stay well formed.
proof fn lemma_concat_wf(s: Seq<char>, a: Seq<PieceModel>, b: Seq<PieceModel>)
    requires
        pieces_wf(s, a),
        pieces_wf(s, b),
    ensures
        pieces_wf(s, a + b),
{
    assert forall|k: int| 0 <= k < (a + b).len() implies piece_wf(s, #[trigger] (a + b)[k]) by {
        if k < a.len() {
            assert((a + b)[k] == a[k]);
        } else {
            assert((a + b)[k] == b[k - a.len()]);
        }
    }
}

/// Every piece of a scan is well formed.
pub proof fn lemma_scan_wf(s: Seq<char>)
    ensures
        pieces_wf(s, scan_spec(s)),
{
    lemma_scan_from_wf(s, 0, 0, None);
}

/// A statement that is not blank and carries no surrounding whitespace.
pub open spec fn is_trimmed_nonblank(t: Seq<char>) -> bool {
    t.len() > 0 && !is_ws(t[0]) && !is_ws(t.last())
}

pub open spec fn statements_wf(ts: Seq<Seq<char>>) -> bool {
    forall|k: int| 0 <= k < ts.len() ==> is_trimmed_nonblank(#[trigger] ts[k])
}

proof fn lemma_statement_wf(s: Seq<char>, a: int, b: int)
    requires
        0 <= a <= b <= s.len(),
    ensures
        statements_wf(statement_spec(s, a, b)),
{
    lemma_ws_first(s, a, b);
    let lo = trim_range(s, a, b).0;
    lemma_ws_last(s, lo, b);
    let hi = trim_range(s, a, b).1;
    if lo < hi {
        let t = s.subrange(lo, hi);
        assert(t[0] == s[lo]);
        assert(t.last() == s[hi - 1]);
    }
}

proof fn lemma_concat_statements_wf(a: Seq<Seq<char>>, b: Seq<Seq<char>>)
    requires
        statements_wf(a),
        statements_wf(b),
    ensures
        statements_wf(a + b),
{
    assert forall|k: int| 0 <= k < (a + b).len() implies is_trimmed_nonblank(#[trigger] (a + b)[k]) by {
        if k < a.len() {
            assert((a + b)[k] == a[k]);
        } else {
            assert((a + b)[k] == b[k - a.len()]);
        }
    }
}

proof fn lemma_split_from_wf(s: Seq<char>, i: int, start: int)
    requires
        0 <= start <= s.len(),
        start <= i || i >= s.len(),
    ensures
        statements_wf(split_from(s, i, start)),
    decreases s.len() - i,
{
    if i < 0 || i >= s.len() {
        lemma_statement_wf(s, start, s.len() as int);
    } else if is_quote(s[i]) {
        lemma_quoted_end(s, s[i], i + 1);
        lemma_split_from_wf(s, skip_quoted_spec(s, i), start);
    } else if is_line_comment_at(s, i) {
        lemma_line_end(s, i);
        lemma_split_from_wf(s, line_end(s, i), start);
    } else if is_block_comment_at(s, i) {
        lemma_block_end(s, 0, i);
        lemma_split_from_wf(s, block_end(s, 0, i), start);
    } else if s[i] == '$' {
        lemma_skip_dollar(s, i);
        lemma_split_from_wf(s, after_dollar(s, i), start);
    } else if s[i] == ';' {
        lemma_statement_wf(s, start, i);
        lemma_split_from_wf(s, i + 1, i + 1);
        lemma_concat_statements_wf(statement_spec(s, start, i), split_from(s, i + 1, i + 1));
    } else {
        lemma_split_from_wf(s, i + 1, start);
    }
}

/// Every statement of a script is non-blank and carries no surrounding
/// whitespace.
pub proof fn lemma_split_wf(s: Seq<char>)
    ensures
        statements_wf(split_spec(s)),
{
    lemma_split_from_wf(s, 0, 0);
}

proof fn lemma_split_from_no_semicolon(s: Seq<char>, i: int, start: int)
    requires
        0 <= start <= s.len(),
        start <= i || i >= s.len(),
        forall|k: int| 0 <= k < s.len() ==> s[k] != ';',
    ensures
        split_from(s, i, start) == statement_spec(s, start, s.len() as int),
    decreases s.len() - i,
{
    if i < 0 || i >= s.len() {
    } else if is_quote(s[i]) {
        lemma_quoted_end(s, s[i], i + 1);
        lemma_split_from_no_semicolon(s, skip_quoted_spec(s, i), start);
    } else if is_line_comment_at(s, i) {
        lemma_line_end(s, i);
        lemma_split_from_no_semicolon(s, line_end(s, i), start);
    } else if is_block_comment_at(s, i) {
        lemma_block_end(s, 0, i);
        lemma_split_from_no_semicolon(s, block_end(s, 0, i), start);
    } else if s[i] == '$' {
        lemma_skip_dollar(s, i);
        lemma_split_from_no_semicolon(s, after_dollar(s, i), start);
    } else {
        lemma_split_from_no_semicolon(s, i + 1, start);
    }
}

/// Only a semicolon ends a statement: a script without one is a single
/// statement, its trimmed text, or none at all where it is blank.
pub proof fn lemma_split_without_semicolon(s: Seq<char>)
    requires
        forall|k: int| 0 <= k < s.len() ==> s[k] != ';',
    ensures
        split_spec(s) == statement_spec(s, 0, s.len() as int),
{
    lemma_split_from_no_semicolon(s, 0, 0);
}

/// A piece that carries no placeholder.
pub open spec fn is_text_piece(p: PieceModel) -> bool {
    !(p is Param)
}

proof fn lemma_scan_from_no_question(s: Seq<char>, i: int, start: int, escaped: Option<Seq<char>>)
    requires
        0 <= start <= s.len(),
        start <= i || i >= s.len(),
        forall|k: int| 0 <= k < s.len() ==> s[k] != '?',
    ensures
        forall|k: int|
            0 <= k < scan_from(s, i, start, escaped).len() ==> is_text_piece(
                #[trigger] scan_from(s, i, start, escaped)[k],
            ),
    decreases s.len() - i,
{
    let r = scan_from(s, i, start, escaped);
    if i < 0 || i >= s.len() {
        lemma_flush_wf(s, escaped, start, s.len() as int);
        assert forall|k: int| 0 <= k < r.len() implies is_text_piece(#[trigger] r[k]) by {
            assert(k == 0);
        }
    } else {
        assert(s[i] != '?');
        let (j, st, e) = if is_quote(s[i]) {
            (skip_quoted_spec(s, i), start, escaped)
        } else if is_line_comment_at(s, i) {
            (line_end(s, i), line_end(s, i), None)
        } else if is_block_comment_at(s, i) {
            (block_end(s, 0, i), block_end(s, 0, i), None)
        } else if s[i] == '$' {
            (after_dollar(s, i), start, escaped)
        } else {
            (i + 1, start, escaped)
        };
        let f = if is_line_comment_at(s, i) || is_block_comment_at(s, i) {
            flush_spec(s, escaped, start, i)
        } else {
            Seq::<PieceModel>::empty()
        };
        lemma_quoted_end(s, s[i], i + 1);
        lemma_line_end(s, i);
        lemma_block_end(s, 0, i);
        lemma_skip_dollar(s, i);
        lemma_flush_wf(s, escaped, start, i);
        assert(r =~= f + scan_from(s, j, st, e));
        lemma_scan_from_no_question(s, j, st, e);
        let rest = scan_from(s, j, st, e);
        assert forall|k: int| 0 <= k < r.len() implies is_text_piece(#[trigger] r[k]) by {
            if k < f.len() {
                assert(r[k] == f[k]);
                assert(k == 0);
            } else {
                assert(r[k] == rest[k - f.len()]);
            }
        }
    }
}

/// Only a `?` is a placeholder: text without one scans to no placeholder.
pub proof fn lemma_scan_without_question(s: Seq<char>)
    requires
        forall|k: int| 0 <= k < s.len() ==> s[k] != '?',
    ensures
        forall|k: int| 0 <= k < scan_spec(s).len() ==> is_text_piece(#[trigger] scan_spec(s)[k]),
{
    lemma_scan_from_no_question(s, 0, 0, None);
}

// -----------------------------------------------------------------------------
//                          Quoted literals are opaque
// -----------------------------------------------------------------------------

proof fn lemma_literal_end(q: char, body: Seq<char>, i: int)
    requires
        is_quote(q),
        1 <= i <= body.len() + 1,
        forall|k: int| 0 <= k < body.len() ==> #[trigger] body[k] != q && body[k] != '\\',
    ensures
        quoted_end(seq![q] + body + seq![q], q, i) == body.len() + 2,
    decreases body.len() + 1 - i,
{
    let s = seq![q] + body + seq![q];
    assert(s.len() == body.len() + 2);
    if i <= body.len() {
        assert(s[i] == body[i - 1]);
        assert(s[i] != q && s[i] != '\\');
        lemma_literal_end(q, body, i + 1);
        assert(quoted_end(s, q, i) == quoted_end(s, q, i + 1));
    } else {
        assert(s[i] == q);
        assert(quoted_end(s, q, i) == i + 1);
    }
}

/// A literal quoted by `'`, `"` or `` ` `` whose body holds neither its
/// quote nor a backslash is opaque, whatever else it holds: splitting it
/// gives the literal whole, a `;` inside it included, and scanning it gives
/// one text piece, a `?` inside it included.
pub proof fn lemma_quoted_literal_is_opaque(q: char, body: Seq<char>)
    requires
        q == '\'' || q == '"' || q == '`',
        forall|k: int| 0 <= k < body.len() ==> #[trigger] body[k] != q && body[k] != '\\',
    ensures
        split_spec(seq![q] + body + seq![q]) == seq![seq![q] + body + seq![q]],
        scan_spec(seq![q] + body + seq![q]) == seq![
            PieceModel::Raw(0, body.len() as int + 2),
        ],
{
    let s = seq![q] + body + seq![q];
    let n = s.len() as int;
    assert(s[0] == q);
    assert(s[n - 1] == q);
    lemma_literal_end(q, body, 1);
    assert(skip_quoted_spec(s, 0) == n);
    assert(ws_first(s, 0, n) == 0);
    assert(ws_last(s, 0, n) == n);
    assert(trim_range(s, 0, n) == (0int, n));
    assert(s.subrange(0, n) =~= s);
    assert(split_from(s, 0, 0) == split_from(s, n, 0));
    assert(scan_from(s, 0, 0, None) == scan_from(s, n, 0, None));
}

} // verus!

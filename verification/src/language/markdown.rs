use vstd::prelude::*;
use vstd::string::*;
use crate::language::json::span;
use crate::language::{lemma_spans_cons, spans_from, HighlightState, LanguageId, LanguageMode, TokenKind, TokenSpan};
use crate::text::{chars_of, is_white_space, string_from_chars, white_space, ascii_space, is_ascii_space, leading_white, lemma_ascii_is_utf8, lemma_encode_skip_len, lemma_leading_white_len, str_trim_start, utf8_lossy};

verus! {

/// The Markdown language mode.
pub struct MarkdownMode;

/// How many bytes equal to `c` follow one another from offset `i` on.
pub open spec fn run_len(b: Seq<u8>, i: int, c: u8) -> int
    decreases b.len() - i,
{
    if 0 <= i < b.len() && b[i] == c {
        1 + run_len(b, i + 1, c)
    } else {
        0
    }
}

/// The length of the fence (three or more backticks or tildes) that opens
/// the trimmed line `t`.
pub open spec fn fence_open_len(t: Seq<u8>) -> Option<int> {
    if t.len() < 3 || !(t[0] == 96u8 || t[0] == 126u8) {
        None
    } else if run_len(t, 0, t[0]) < 3 {
        None
    } else {
        Some(run_len(t, 0, t[0]))
    }
}

/// The trimmed line `t` closes the fence opened with `marker`: at least as
/// many fence characters, then only whitespace.
pub open spec fn fence_closes(t: Seq<u8>, marker: Seq<u8>) -> bool {
    &&& marker.len() > 0
    &&& run_len(t, 0, marker[0]) >= marker.len()
    &&& forall|k: int| run_len(t, 0, marker[0]) <= k < t.len() ==> is_ascii_space(#[trigger] t[k])
}

/// The trimmed line `t` is a heading: one to six `#`, then the end or a
/// space.
pub open spec fn is_heading(t: Seq<u8>) -> bool {
    &&& t.len() > 0
    &&& t[0] == 35u8
    &&& run_len(t, 0, 35u8) <= 6
    &&& (run_len(t, 0, 35u8) == t.len() || t[run_len(t, 0, 35u8)] == 32u8)
}

/// The first offset at or after `i` holding `x`, or the length.
pub open spec fn find_byte(b: Seq<u8>, i: int, x: u8) -> int
    decreases b.len() - i,
{
    if i < 0 || i >= b.len() {
        b.len() as int
    } else if b[i] == x {
        i
    } else {
        find_byte(b, i + 1, x)
    }
}

/// Where a link `[text](url)` that starts at `s` ends.
pub open spec fn link_end(b: Seq<u8>, s: int) -> Option<int> {
    if !(0 <= s < b.len() && b[s] == 91u8) {
        None
    } else {
        let i = find_byte(b, s + 1, 93u8);
        if i >= b.len() {
            None
        } else if !(i + 1 < b.len() && b[i + 1] == 40u8) {
            None
        } else {
            let j = find_byte(b, i + 2, 41u8);
            if j >= b.len() {
                None
            } else {
                Some(j + 1)
            }
        }
    }
}

/// Where the emphasis closed by `m` (doubled or not) ends, searching from
/// `k`.
pub open spec fn emph_end(b: Seq<u8>, k: int, m: u8, double: bool) -> Option<int>
    decreases b.len() - k,
{
    if k < 0 || k >= b.len() {
        None
    } else if double && b[k] == m && k + 1 < b.len() && b[k + 1] == m {
        Some(k + 2)
    } else if !double && b[k] == m {
        Some(k + 1)
    } else {
        emph_end(b, k + 1, m, double)
    }
}

/// A byte that may start an inline construct.
pub open spec fn is_special(b: Seq<u8>, k: int) -> bool {
    let c = b[k];
    c == 96u8 || c == 91u8 || c == 42u8 || c == 95u8 || (c == 33u8 && k + 1 < b.len() && b[k + 1] == 91u8)
}

/// Where a run of plain text from `k` ends.
pub open spec fn plain_end(b: Seq<u8>, k: int) -> int
    decreases b.len() - k,
{
    if 0 <= k < b.len() && !is_special(b, k) {
        plain_end(b, k + 1)
    } else {
        k
    }
}

/// The inline spans of a line from offset `i` on: code, links, emphasis,
/// plain text.
pub open spec fn inline_tokens(b: Seq<u8>, i: int) -> Seq<TokenSpan>
    decreases b.len() - i,
{
    if i < 0 || i >= b.len() {
        Seq::empty()
    } else {
        let c = b[i];
        if c == 96u8 {
            let j = find_byte(b, i + 1, 96u8);
            let e = if j < b.len() { j + 1 } else { j };
            if e <= i || e > b.len() {
                Seq::empty()
            } else {
                seq![span(i, e, TokenKind::Code)] + inline_tokens(b, e)
            }
        } else if c == 33u8 && i + 1 < b.len() && b[i + 1] == 91u8 && link_end(b, i + 1) is Some {
            let e = link_end(b, i + 1)->0;
            if e <= i || e > b.len() {
                Seq::empty()
            } else {
                seq![span(i, e, TokenKind::Link)] + inline_tokens(b, e)
            }
        } else if c == 91u8 && link_end(b, i) is Some {
            let e = link_end(b, i)->0;
            if e <= i || e > b.len() {
                Seq::empty()
            } else {
                seq![span(i, e, TokenKind::Link)] + inline_tokens(b, e)
            }
        } else if c == 42u8 || c == 95u8 {
            let double = i + 1 < b.len() && b[i + 1] == c;
            let k = if double { i + 2 } else { i + 1 };
            match emph_end(b, k, c, double) {
                Some(e) => if e <= i || e > b.len() {
                    Seq::empty()
                } else {
                    seq![span(i, e, TokenKind::Emphasis)] + inline_tokens(b, e)
                },
                None => seq![span(i, i + 1, TokenKind::Text)] + inline_tokens(b, i + 1),
            }
        } else {
            let j = plain_end(b, i + 1);
            if j <= i || j > b.len() {
                Seq::empty()
            } else {
                seq![span(i, j, TokenKind::Text)] + inline_tokens(b, j)
            }
        }
    }
}

/// The spans of a Markdown line `line` whose start-trimmed bytes are `t`,
/// inside a code fence opened with `marker` or not; with the fence state
/// after the line.
pub open spec fn md_line(line: Seq<u8>, t: Seq<u8>, in_fence: bool, marker: Seq<u8>) -> (Seq<TokenSpan>, bool, Seq<u8>) {
    let whole_code = seq![span(0, line.len() as int, TokenKind::Code)];
    if in_fence {
        if fence_closes(t, marker) {
            (whole_code, false, Seq::empty())
        } else {
            (whole_code, true, marker)
        }
    } else {
        match fence_open_len(t) {
            Some(n) => (whole_code, true, t.take(n)),
            None => if is_heading(t) {
                (seq![span(0, line.len() as int, TokenKind::Heading)], false, marker)
            } else {
                (inline_tokens(line, 0), false, marker)
            },
        }
    }
}

/// Inline Markdown spans come in order within the line, from where
/// scanning starts.
pub proof fn lemma_inline_spans_in_order(b: Seq<u8>, i: int)
    requires
        0 <= i,
        b.len() <= usize::MAX,
    ensures
        spans_from(inline_tokens(b, i), i, b.len() as int),
    decreases b.len() - i,
{
    if i >= b.len() {
        return;
    }
    let c = b[i];
    let len = b.len() as int;
    if c == 96u8 {
        let j = find_byte(b, i + 1, 96u8);
        let e = if j < b.len() { j + 1 } else { j };
        if !(e <= i || e > b.len()) {
            lemma_inline_spans_in_order(b, e);
            lemma_spans_cons(span(i, e, TokenKind::Code), inline_tokens(b, e), len);
        }
    } else if c == 33u8 && i + 1 < b.len() && b[i + 1] == 91u8 && link_end(b, i + 1) is Some {
        let e = link_end(b, i + 1)->0;
        if !(e <= i || e > b.len()) {
            lemma_inline_spans_in_order(b, e);
            lemma_spans_cons(span(i, e, TokenKind::Link), inline_tokens(b, e), len);
        }
    } else if c == 91u8 && link_end(b, i) is Some {
        let e = link_end(b, i)->0;
        if !(e <= i || e > b.len()) {
            lemma_inline_spans_in_order(b, e);
            lemma_spans_cons(span(i, e, TokenKind::Link), inline_tokens(b, e), len);
        }
    } else if c == 42u8 || c == 95u8 {
        let double = i + 1 < b.len() && b[i + 1] == c;
        let k = if double { i + 2 } else { i + 1 };
        match emph_end(b, k, c, double) {
            Some(e) => if !(e <= i || e > b.len()) {
                lemma_inline_spans_in_order(b, e);
                lemma_spans_cons(span(i, e, TokenKind::Emphasis), inline_tokens(b, e), len);
            },
            None => {
                lemma_inline_spans_in_order(b, i + 1);
                lemma_spans_cons(span(i, i + 1, TokenKind::Text), inline_tokens(b, i + 1), len);
            },
        }
    } else {
        let j = plain_end(b, i + 1);
        if !(j <= i || j > b.len()) {
            lemma_inline_spans_in_order(b, j);
            lemma_spans_cons(span(i, j, TokenKind::Text), inline_tokens(b, j), len);
        }
    }
}

/// The spans of a highlighted Markdown line come in order within it.
pub proof fn lemma_md_spans_in_order(line: Seq<char>, before: HighlightState)
    requires
        vstd::utf8::encode_utf8(line).len() <= usize::MAX,
    ensures
        ({
            let b = vstd::utf8::encode_utf8(line);
            let t = vstd::utf8::encode_utf8(line.skip(leading_white(line) as int));
            spans_from(
                md_line(b, t, before.in_code_fence, vstd::utf8::encode_utf8(before.fence_marker@)).0,
                0,
                b.len() as int,
            )
        }),
{
    let b = vstd::utf8::encode_utf8(line);
    lemma_inline_spans_in_order(b, 0);
    let whole = seq![span(0, b.len() as int, TokenKind::Code)];
    let head = seq![span(0, b.len() as int, TokenKind::Heading)];
    assert(spans_from(whole, 0, b.len() as int));
    assert(spans_from(head, 0, b.len() as int));
}

/// `spans` cover `lo .. hi` one after another, with no gap and no overlap.
pub open spec fn spans_tile(spans: Seq<TokenSpan>, lo: int, hi: int) -> bool
    decreases spans.len(),
{
    if spans.len() == 0 {
        lo == hi
    } else {
        &&& spans[0].start == lo
        &&& spans[0].start <= spans[0].end
        &&& spans_tile(spans.drop_first(), spans[0].end as int, hi)
    }
}

proof fn lemma_tile_cons(first: TokenSpan, rest: Seq<TokenSpan>, hi: int)
    requires
        first.start <= first.end,
        spans_tile(rest, first.end as int, hi),
    ensures
        spans_tile(seq![first] + rest, first.start as int, hi),
{
    let all = seq![first] + rest;
    assert(all.drop_first() =~= rest);
    assert(all[0] == first);
}

/// The inline spans of a line cover it from where scanning starts to its
/// end, one after another.
pub proof fn lemma_inline_spans_tile(b: Seq<u8>, i: int)
    requires
        0 <= i <= b.len(),
        b.len() <= usize::MAX,
    ensures
        spans_tile(inline_tokens(b, i), i, b.len() as int),
    decreases b.len() - i,
{
    if i >= b.len() {
        return;
    }
    let c = b[i];
    let len = b.len() as int;
    if c == 96u8 {
        let j = find_byte(b, i + 1, 96u8);
        lemma_find_byte_bounds(b, i + 1, 96u8);
        let e = if j < b.len() { j + 1 } else { j };
        lemma_inline_spans_tile(b, e);
        lemma_tile_cons(span(i, e, TokenKind::Code), inline_tokens(b, e), len);
    } else if c == 33u8 && i + 1 < b.len() && b[i + 1] == 91u8 && link_end(b, i + 1) is Some {
        lemma_link_end_bounds(b, i + 1);
        let e = link_end(b, i + 1)->0;
        lemma_inline_spans_tile(b, e);
        lemma_tile_cons(span(i, e, TokenKind::Link), inline_tokens(b, e), len);
    } else if c == 91u8 && link_end(b, i) is Some {
        lemma_link_end_bounds(b, i);
        let e = link_end(b, i)->0;
        lemma_inline_spans_tile(b, e);
        lemma_tile_cons(span(i, e, TokenKind::Link), inline_tokens(b, e), len);
    } else if c == 42u8 || c == 95u8 {
        let double = i + 1 < b.len() && b[i + 1] == c;
        let k = if double { i + 2 } else { i + 1 };
        lemma_emph_end_bounds(b, k, c, double);
        match emph_end(b, k, c, double) {
            Some(e) => {
                lemma_inline_spans_tile(b, e);
                lemma_tile_cons(span(i, e, TokenKind::Emphasis), inline_tokens(b, e), len);
            },
            None => {
                lemma_inline_spans_tile(b, i + 1);
                lemma_tile_cons(span(i, i + 1, TokenKind::Text), inline_tokens(b, i + 1), len);
            },
        }
    } else {
        lemma_plain_end_bounds(b, i + 1);
        let j = plain_end(b, i + 1);
        lemma_inline_spans_tile(b, j);
        lemma_tile_cons(span(i, j, TokenKind::Text), inline_tokens(b, j), len);
    }
}

proof fn lemma_link_end_bounds(b: Seq<u8>, s: int)
    requires
        0 <= s,
        link_end(b, s) is Some,
    ensures
        s < link_end(b, s)->0 <= b.len(),
{
    lemma_find_byte_bounds(b, s + 1, 93u8);
    let i = find_byte(b, s + 1, 93u8);
    lemma_find_byte_bounds(b, i + 2, 41u8);
}

/// The spans of a highlighted Markdown line cover the whole line, one
/// after another; inside a code fence (and on the line that opens one) the
/// line is one code span.
pub proof fn lemma_md_spans_tile(line: Seq<char>, before: HighlightState)
    requires
        vstd::utf8::encode_utf8(line).len() <= usize::MAX,
    ensures
        ({
            let b = vstd::utf8::encode_utf8(line);
            let t = vstd::utf8::encode_utf8(line.skip(leading_white(line) as int));
            let r = md_line(b, t, before.in_code_fence, vstd::utf8::encode_utf8(before.fence_marker@));
            &&& spans_tile(r.0, 0, b.len() as int)
            &&& (before.in_code_fence || fence_open_len(t) is Some) ==> r.0 == seq![span(0, b.len() as int, TokenKind::Code)]
        }),
{
    let b = vstd::utf8::encode_utf8(line);
    lemma_inline_spans_tile(b, 0);
    let whole = seq![span(0, b.len() as int, TokenKind::Code)];
    let head = seq![span(0, b.len() as int, TokenKind::Heading)];
    lemma_tile_cons(whole[0], Seq::empty(), b.len() as int);
    lemma_tile_cons(head[0], Seq::empty(), b.len() as int);
    assert(seq![whole[0]] + Seq::<TokenSpan>::empty() =~= whole);
    assert(seq![head[0]] + Seq::<TokenSpan>::empty() =~= head);
}

/// Any of the inline spans from `i` begins the inline spans from its own
/// start: scanning resumes where each span starts.
proof fn lemma_inline_suffix(b: Seq<u8>, i: int, k: int)
    requires
        0 <= i <= b.len(),
        b.len() <= usize::MAX,
        0 <= k < inline_tokens(b, i).len(),
    ensures
        inline_tokens(b, i)[k].start < b.len(),
        inline_tokens(b, i).skip(k) == inline_tokens(b, inline_tokens(b, i)[k].start as int),
    decreases b.len() - i,
{
    let toks = inline_tokens(b, i);
    let c = b[i];
    let e: int = if c == 96u8 {
        lemma_find_byte_bounds(b, i + 1, 96u8);
        let j = find_byte(b, i + 1, 96u8);
        if j < b.len() { j + 1 } else { j }
    } else if c == 33u8 && i + 1 < b.len() && b[i + 1] == 91u8 && link_end(b, i + 1) is Some {
        lemma_link_end_bounds(b, i + 1);
        link_end(b, i + 1)->0
    } else if c == 91u8 && link_end(b, i) is Some {
        lemma_link_end_bounds(b, i);
        link_end(b, i)->0
    } else if c == 42u8 || c == 95u8 {
        let double = i + 1 < b.len() && b[i + 1] == c;
        let k2 = if double { i + 2 } else { i + 1 };
        lemma_emph_end_bounds(b, k2, c, double);
        match emph_end(b, k2, c, double) {
            Some(e) => e,
            None => i + 1,
        }
    } else {
        lemma_plain_end_bounds(b, i + 1);
        plain_end(b, i + 1)
    };
    let rest = inline_tokens(b, e);
    assert(toks == seq![toks[0]] + rest);
    assert(toks[0].start == i);
    if k == 0 {
        assert(toks.skip(0) =~= toks);
    } else {
        assert(toks.skip(k) =~= rest.skip(k - 1));
        assert(toks[k] == rest[k - 1]);
        lemma_inline_suffix(b, e, k - 1);
    }
}

proof fn lemma_emph_end_single(b: Seq<u8>, k: int, m: u8, j: int)
    requires
        0 <= k <= j < b.len(),
        b[j] == m,
        forall|x: int| k <= x < j ==> b[x] != m,
    ensures
        emph_end(b, k, m, false) == Some(j + 1),
    decreases j - k,
{
    if k < j {
        lemma_emph_end_single(b, k + 1, m, j);
    }
}

proof fn lemma_emph_end_double(b: Seq<u8>, k: int, m: u8, j: int)
    requires
        0 <= k <= j,
        j + 1 < b.len(),
        b[j] == m && b[j + 1] == m,
        forall|x: int| k <= x < j ==> !(#[trigger] b[x] == m && x + 1 < b.len() && b[x + 1] == m),
    ensures
        emph_end(b, k, m, true) == Some(j + 2),
    decreases j - k,
{
    if k < j {
        lemma_emph_end_double(b, k + 1, m, j);
    }
}

proof fn lemma_emph_end_none(b: Seq<u8>, k: int, m: u8)
    requires
        0 <= k,
        forall|x: int| k <= x < b.len() ==> b[x] != m,
    ensures
        emph_end(b, k, m, false) is None,
    decreases b.len() - k,
{
    if k < b.len() {
        lemma_emph_end_none(b, k + 1, m);
    }
}

/// Emphasis in the inline spans of a line: where a span starts at a `*`
/// or `_` that is not doubled, it runs to the next same marker, as
/// Emphasis, or is that marker alone, as Text, when none follows; where the
/// marker is doubled, the span runs to the next doubled marker, as
/// Emphasis.
pub proof fn lemma_inline_emphasis(b: Seq<u8>, k: int)
    requires
        b.len() <= usize::MAX,
        0 <= k < inline_tokens(b, 0).len(),
    ensures
        ({
            let sp = inline_tokens(b, 0)[k];
            let i = sp.start as int;
            let m = b[i];
            let double = i + 1 < b.len() && b[i + 1] == m;
            &&& i < b.len()
            &&& (m == 42u8 || m == 95u8) && !double ==> {
                &&& forall|j: int|
                    i < j < b.len() && #[trigger] b[j] == m && (forall|x: int| i < x < j ==> b[x] != m) ==> sp
                        == span(i, j + 1, TokenKind::Emphasis)
                &&& (forall|x: int| i < x < b.len() ==> b[x] != m) ==> sp == span(i, i + 1, TokenKind::Text)
            }
            &&& (m == 42u8 || m == 95u8) && double ==> forall|j: int|
                i + 2 <= j && j + 1 < b.len() && #[trigger] b[j] == m && b[j + 1] == m && (forall|x: int|
                    i + 2 <= x < j ==> !(#[trigger] b[x] == m && x + 1 < b.len() && b[x + 1] == m)) ==> sp == span(
                    i,
                    j + 2,
                    TokenKind::Emphasis,
                )
        }),
{
    lemma_inline_suffix(b, 0, k);
    let toks = inline_tokens(b, 0);
    let sp = toks[k];
    let i = sp.start as int;
    let from_i = inline_tokens(b, i);
    assert(toks.skip(k)[0] == sp);
    assert(from_i[0] == sp);
    let m = b[i];
    let double = i + 1 < b.len() && b[i + 1] == m;
    if m == 42u8 || m == 95u8 {
        if !double {
            assert forall|j: int|
                i < j < b.len() && #[trigger] b[j] == m && (forall|x: int| i < x < j ==> b[x] != m) implies sp
                    == span(i, j + 1, TokenKind::Emphasis) by {
                lemma_emph_end_single(b, i + 1, m, j);
            }
            if forall|x: int| i < x < b.len() ==> b[x] != m {
                lemma_emph_end_none(b, i + 1, m);
            }
        } else {
            assert forall|j: int|
                i + 2 <= j && j + 1 < b.len() && #[trigger] b[j] == m && b[j + 1] == m && (forall|x: int|
                    i + 2 <= x < j ==> !(#[trigger] b[x] == m && x + 1 < b.len() && b[x + 1] == m)) implies sp == span(
                    i,
                    j + 2,
                    TokenKind::Emphasis,
                ) by {
                lemma_emph_end_double(b, i + 2, m, j);
            }
        }
    }
}

proof fn lemma_find_byte_exact(b: Seq<u8>, x: int, v: u8, j: int)
    requires
        0 <= x <= j <= b.len(),
        j < b.len() ==> b[j] == v,
        forall|y: int| x <= y < j ==> b[y] != v,
    ensures
        find_byte(b, x, v) == j,
    decreases j - x,
{
    if x < j {
        lemma_find_byte_exact(b, x + 1, v, j);
    }
}

proof fn lemma_plain_end_exact(b: Seq<u8>, x: int, p: int)
    requires
        0 <= x <= p <= b.len(),
        forall|y: int| x <= y < p ==> !is_special(b, y),
        p == b.len() || is_special(b, p),
    ensures
        plain_end(b, x) == p,
    decreases p - x,
{
    if x < p {
        lemma_plain_end_exact(b, x + 1, p);
    }
}

/// A backtick, `[`, `*`, `_`, or `!` right before `[` stands at `k`: the
/// characters that can open code, a link or emphasis.
pub open spec fn opens_inline(b: Seq<u8>, k: int) -> bool {
    ||| b[k] == 96u8
    ||| b[k] == 91u8
    ||| b[k] == 42u8
    ||| b[k] == 95u8
    ||| (b[k] == 33u8 && k + 1 < b.len() && b[k + 1] == 91u8)
}

/// `b` holds a link `[..](..)` from `i`: the first `]` after `i` at `j`, a
/// `(` right after it, and the first `)` after that at `q`.
pub open spec fn link_from(b: Seq<u8>, i: int, j: int, q: int) -> bool {
    &&& 0 <= i < j
    &&& j + 1 < q < b.len()
    &&& b[i] == 91u8
    &&& b[j] == 93u8
    &&& (forall|y: int| i < y < j ==> b[y] != 93u8)
    &&& b[j + 1] == 40u8
    &&& b[q] == 41u8
    &&& (forall|y: int| j + 1 < y < q ==> b[y] != 41u8)
}

/// Code, links and plain text in the inline spans of a line: a span that
/// starts at a backtick runs to the next backtick, or to the end of the
/// line when none follows, as Code; one that starts at a link, or at a `!`
/// right before one, runs to the link's `)`, as a Link; one that starts at
/// a character that opens nothing runs up to the next `` ` ``, `[`, `*`,
/// `_` or `![`, as Text.
pub proof fn lemma_inline_code_links_text(b: Seq<u8>, k: int)
    requires
        b.len() <= usize::MAX,
        0 <= k < inline_tokens(b, 0).len(),
    ensures
        inline_tokens(b, 0)[k].start < b.len(),
        ({
            let sp = inline_tokens(b, 0)[k];
            let i = sp.start as int;
            &&& b[i] == 96u8 ==> forall|j: int|
                i < j < b.len() && #[trigger] b[j] == 96u8 && (forall|y: int| i < y < j ==> b[y] != 96u8) ==> sp
                    == span(i, j + 1, TokenKind::Code)
            &&& b[i] == 96u8 && (forall|y: int| i < y < b.len() ==> b[y] != 96u8) ==> sp == span(
                i,
                b.len() as int,
                TokenKind::Code,
            )
        }),
        ({
            let sp = inline_tokens(b, 0)[k];
            let i = sp.start as int;
            forall|j: int, q: int| #[trigger] link_from(b, i, j, q) ==> sp == span(i, q + 1, TokenKind::Link)
        }),
        ({
            let sp = inline_tokens(b, 0)[k];
            let i = sp.start as int;
            b[i] == 33u8 ==> forall|j: int, q: int| #[trigger] link_from(b, i + 1, j, q) ==> sp == span(
                i,
                q + 1,
                TokenKind::Link,
            )
        }),
        forall|p: int|
            !opens_inline(b, inline_tokens(b, 0)[k].start as int) && inline_tokens(b, 0)[k].start < p <= b.len()
                && (forall|y: int| inline_tokens(b, 0)[k].start < y < p ==> !opens_inline(b, y)) && (p == b.len()
                || #[trigger] opens_inline(b, p)) ==> inline_tokens(b, 0)[k] == span(
                inline_tokens(b, 0)[k].start as int,
                p,
                TokenKind::Text,
            ),
{
    lemma_inline_suffix(b, 0, k);
    let toks = inline_tokens(b, 0);
    let sp = toks[k];
    let i = sp.start as int;
    assert(toks.skip(k)[0] == sp);
    assert(inline_tokens(b, i)[0] == sp);
    if b[i] == 96u8 {
        assert forall|j: int|
            i < j < b.len() && #[trigger] b[j] == 96u8 && (forall|y: int| i < y < j ==> b[y] != 96u8) implies sp
                == span(i, j + 1, TokenKind::Code) by {
            lemma_find_byte_exact(b, i + 1, 96u8, j);
        }
        if forall|y: int| i < y < b.len() ==> b[y] != 96u8 {
            lemma_find_byte_exact(b, i + 1, 96u8, b.len() as int);
        }
    }
    assert forall|j: int, q: int| #[trigger] link_from(b, i, j, q) implies sp == span(i, q + 1, TokenKind::Link) by {
        lemma_find_byte_exact(b, i + 1, 93u8, j);
        lemma_find_byte_exact(b, j + 2, 41u8, q);
        assert(link_end(b, i) == Some(q + 1));
    }
    if b[i] == 33u8 {
        assert forall|j: int, q: int| #[trigger] link_from(b, i + 1, j, q) implies sp == span(i, q + 1, TokenKind::Link) by {
            lemma_find_byte_exact(b, i + 2, 93u8, j);
            lemma_find_byte_exact(b, j + 2, 41u8, q);
            assert(link_end(b, i + 1) == Some(q + 1));
        }
    }
    assert forall|p: int|
        !opens_inline(b, inline_tokens(b, 0)[k].start as int) && inline_tokens(b, 0)[k].start < p <= b.len()
            && (forall|y: int| inline_tokens(b, 0)[k].start < y < p ==> !opens_inline(b, y)) && (p == b.len()
            || #[trigger] opens_inline(b, p)) implies inline_tokens(b, 0)[k] == span(
            inline_tokens(b, 0)[k].start as int,
            p,
            TokenKind::Text,
        ) by {
        assert forall|y: int| i + 1 <= y < p implies !is_special(b, y) by {
            assert(!opens_inline(b, y));
        }
        if p < b.len() {
            assert(opens_inline(b, p));
        }
        lemma_plain_end_exact(b, i + 1, p);
    }
}

proof fn lemma_run_len_exact(t: Seq<u8>, x: int, c: u8, n: int)
    requires
        0 <= x <= n <= t.len(),
        forall|y: int| x <= y < n ==> t[y] == c,
        n == t.len() || t[n] != c,
    ensures
        run_len(t, x, c) == n - x,
    decreases n - x,
{
    if x < n {
        lemma_run_len_exact(t, x + 1, c, n);
    }
}

/// The spans of a highlighted line outside a code fence, whose text (after
/// its leading white space) neither starts with `#` nor opens a fence with
/// three backticks or tildes, are its inline spans.
pub proof fn lemma_md_plain_line(line: Seq<char>, before: HighlightState, after: HighlightState, spans: Seq<TokenSpan>)
    requires
        md_line_highlighted(line, before, after, spans),
        !before.in_code_fence,
        ({
            let t = vstd::utf8::encode_utf8(line.skip(leading_white(line) as int));
            &&& !(t.len() > 0 && t[0] == 35u8)
            &&& !(t.len() >= 3 && t[0] == t[1] && t[1] == t[2] && (t[0] == 96u8 || t[0] == 126u8))
        }),
    ensures
        spans == inline_tokens(vstd::utf8::encode_utf8(line), 0),
{
    let t = vstd::utf8::encode_utf8(line.skip(leading_white(line) as int));
    if t.len() >= 3 && (t[0] == 96u8 || t[0] == 126u8) {
        let c = t[0];
        if t[1] != c {
            lemma_run_len_exact(t, 0, c, 1);
        } else {
            lemma_run_len_exact(t, 0, c, 2);
        }
    }
    assert(fence_open_len(t) is None);
    assert(!is_heading(t));
}

/// Emphasis in a highlighted Markdown line outside a code fence that is
/// neither a heading nor a fence: a span that starts at a `*` or `_` that
/// is not doubled runs to the next same marker, as Emphasis, or is the
/// marker alone, as Text, when none follows; a doubled marker's span runs
/// to the next doubled marker, as Emphasis.
pub proof fn lemma_md_emphasis(line: Seq<char>, before: HighlightState, after: HighlightState, spans: Seq<TokenSpan>, k: int)
    requires
        md_line_highlighted(line, before, after, spans),
        !before.in_code_fence,
        vstd::utf8::encode_utf8(line).len() <= usize::MAX,
        ({
            let t = vstd::utf8::encode_utf8(line.skip(leading_white(line) as int));
            &&& !(t.len() > 0 && t[0] == 35u8)
            &&& !(t.len() >= 3 && t[0] == t[1] && t[1] == t[2] && (t[0] == 96u8 || t[0] == 126u8))
        }),
        0 <= k < spans.len(),
    ensures
        ({
            let b = vstd::utf8::encode_utf8(line);
            let sp = spans[k];
            let i = sp.start as int;
            let m = b[i];
            let double = i + 1 < b.len() && b[i + 1] == m;
            &&& i < b.len()
            &&& (m == 42u8 || m == 95u8) && !double ==> {
                &&& forall|j: int|
                    i < j < b.len() && #[trigger] b[j] == m && (forall|x: int| i < x < j ==> b[x] != m) ==> sp
                        == span(i, j + 1, TokenKind::Emphasis)
                &&& (forall|x: int| i < x < b.len() ==> b[x] != m) ==> sp == span(i, i + 1, TokenKind::Text)
            }
            &&& (m == 42u8 || m == 95u8) && double ==> forall|j: int|
                i + 2 <= j && j + 1 < b.len() && #[trigger] b[j] == m && b[j + 1] == m && (forall|x: int|
                    i + 2 <= x < j ==> !(#[trigger] b[x] == m && x + 1 < b.len() && b[x + 1] == m)) ==> sp == span(
                    i,
                    j + 2,
                    TokenKind::Emphasis,
                )
        }),
{
    lemma_md_plain_line(line, before, after, spans);
    lemma_inline_emphasis(vstd::utf8::encode_utf8(line), k);
}

/// A highlighted Markdown line outside a code fence whose text, after its
/// leading white space, is one to six `#` followed by a space or by nothing
/// is one Heading span over the whole line, and opens no fence.
pub proof fn lemma_md_heading(line: Seq<char>, before: HighlightState, after: HighlightState, spans: Seq<TokenSpan>, n: int)
    requires
        md_line_highlighted(line, before, after, spans),
        !before.in_code_fence,
        1 <= n <= 6,
        ({
            let t = vstd::utf8::encode_utf8(line.skip(leading_white(line) as int));
            &&& n <= t.len()
            &&& forall|x: int| 0 <= x < n ==> t[x] == 35u8
            &&& (n == t.len() || t[n] == 32u8)
        }),
    ensures
        spans == seq![span(0, vstd::utf8::encode_utf8(line).len() as int, TokenKind::Heading)],
        !after.in_code_fence,
{
    let t = vstd::utf8::encode_utf8(line.skip(leading_white(line) as int));
    lemma_run_len_exact(t, 0, 35u8, n);
    assert(t[0] == 35u8);
    assert(fence_open_len(t) is None);
    assert(is_heading(t));
}

proof fn lemma_run_len_bounds(b: Seq<u8>, i: int, c: u8)
    requires
        0 <= i <= b.len(),
    ensures
        0 <= run_len(b, i, c) <= b.len() - i,
        forall|k: int| i <= k < i + run_len(b, i, c) ==> b[k] == c,
        i + run_len(b, i, c) < b.len() ==> b[i + run_len(b, i, c)] != c,
    decreases b.len() - i,
{
    if i < b.len() && b[i] == c {
        lemma_run_len_bounds(b, i + 1, c);
    }
}

/// How many bytes equal to `c` start `bytes`.
fn count_run(bytes: &[u8], c: u8) -> (r: usize)
    ensures
        r == run_len(bytes@, 0, c),
{
    let mut n: usize = 0;
    while n < bytes.len() && bytes[n] == c
        invariant
            n <= bytes@.len(),
            n + run_len(bytes@, n as int, c) == run_len(bytes@, 0, c),
        decreases bytes@.len() - n,
    {
        n = n + 1;
    }
    n
}

/// The fence marker that opens the trimmed line, if it opens one.
fn opening_fence(trimmed: &str) -> (r: Option<String>)
    ensures
        fence_open_len(trimmed.spec_bytes()) is None ==> r is None,
        fence_open_len(trimmed.spec_bytes()) matches Some(n) ==> (r matches Some(m) && vstd::utf8::encode_utf8(m@)
            == trimmed.spec_bytes().take(n)),
{
    let bytes = trimmed.as_bytes();
    if bytes.len() < 3 {
        return None;
    }
    let ch = bytes[0];
    if ch != 96u8 && ch != 126u8 {
        return None;
    }
    let n = count_run(bytes, ch);
    if n < 3 {
        return None;
    }
    proof {
        lemma_run_len_bounds(bytes@, 0, ch);
    }
    let run = vstd::slice::slice_subrange(bytes, 0, n);
    proof {
        assert(run@ =~= bytes@.take(n as int));
        lemma_ascii_is_utf8(run@);
    }
    let marker = utf8_lossy(run);
    proof {
        vstd::utf8::decode_utf8_encode_utf8(run@);
    }
    Some(marker)
}

/// Whether the trimmed line closes the fence opened with `marker`.
fn is_closing_fence(trimmed: &str, marker: &str) -> (r: bool)
    ensures
        r == fence_closes(trimmed.spec_bytes(), marker.spec_bytes()),
{
    let m = marker.as_bytes();
    if m.len() == 0 {
        return false;
    }
    let ch = m[0];
    let need = m.len();
    let bytes = trimmed.as_bytes();
    let n = count_run(bytes, ch);
    proof {
        lemma_run_len_bounds(bytes@, 0, ch);
    }
    if n < need {
        return false;
    }
    let mut k = n;
    while k < bytes.len()
        invariant
            n <= k <= bytes@.len(),
            forall|t: int| n <= t < k ==> is_ascii_space(bytes@[t]),
            bytes@ == trimmed.spec_bytes(),
            m@ == marker.spec_bytes(),
            m@.len() > 0,
            ch == m@[0],
            n == run_len(bytes@, 0, ch),
            n >= m@.len(),
        decreases bytes@.len() - k,
    {
        if !ascii_space(bytes[k]) {
            assert(!is_ascii_space(bytes@[k as int]));
            assert(!fence_closes(trimmed.spec_bytes(), marker.spec_bytes()));
            return false;
        }
        k = k + 1;
    }
    true
}

proof fn lemma_find_byte_bounds(b: Seq<u8>, i: int, x: u8)
    requires
        0 <= i,
    ensures
        b.len() >= i ==> i <= find_byte(b, i, x) <= b.len(),
        b.len() < i ==> find_byte(b, i, x) == b.len(),
        find_byte(b, i, x) < b.len() ==> b[find_byte(b, i, x)] == x,
    decreases b.len() - i,
{
    if 0 <= i < b.len() && b[i] != x {
        lemma_find_byte_bounds(b, i + 1, x);
    }
}

/// The first offset at or after `i` holding `x`, or the length.
fn find_next_byte(bytes: &[u8], i: usize, x: u8) -> (r: usize)
    requires
        i <= bytes@.len(),
    ensures
        r == find_byte(bytes@, i as int, x),
        i <= r <= bytes@.len(),
{
    let mut k = i;
    while k < bytes.len() && bytes[k] != x
        invariant
            i <= k <= bytes@.len(),
            find_byte(bytes@, k as int, x) == find_byte(bytes@, i as int, x),
        decreases bytes@.len() - k,
    {
        k = k + 1;
    }
    k
}

/// Where the link that starts at `start` ends.
fn scan_link(bytes: &[u8], start: usize) -> (r: Option<usize>)
    ensures
        r matches Some(e) ==> link_end(bytes@, start as int) == Some(e as int),
        r is None ==> link_end(bytes@, start as int) is None,
{
    if !(start < bytes.len() && bytes[start] == 91u8) {
        return None;
    }
    let i = find_next_byte(bytes, start + 1, 93u8);
    if i >= bytes.len() {
        return None;
    }
    let i = i + 1;
    if !(i < bytes.len() && bytes[i] == 40u8) {
        return None;
    }
    let j = find_next_byte(bytes, i + 1, 41u8);
    if j >= bytes.len() {
        return None;
    }
    Some(j + 1)
}

proof fn lemma_emph_end_bounds(b: Seq<u8>, k: int, m: u8, double: bool)
    requires
        0 <= k,
    ensures
        emph_end(b, k, m, double) matches Some(e) ==> k < e <= b.len(),
    decreases b.len() - k,
{
    if 0 <= k < b.len() {
        lemma_emph_end_bounds(b, k + 1, m, double);
    }
}

/// Where the emphasis closed by `m` ends, searching from `k`.
fn find_emph_close(bytes: &[u8], k: usize, m: u8, double: bool) -> (r: Option<usize>)
    ensures
        r matches Some(e) ==> emph_end(bytes@, k as int, m, double) == Some(e as int),
        r is None ==> emph_end(bytes@, k as int, m, double) is None,
{
    let mut i = k;
    while i < bytes.len()
        invariant
            k <= i,
            emph_end(bytes@, i as int, m, double) == emph_end(bytes@, k as int, m, double),
        decreases bytes@.len() - i,
    {
        if double {
            if bytes[i] == m && i + 1 < bytes.len() && bytes[i + 1] == m {
                return Some(i + 2);
            }
        } else if bytes[i] == m {
            return Some(i + 1);
        }
        i = i + 1;
    }
    None
}

proof fn lemma_plain_end_bounds(b: Seq<u8>, k: int)
    requires
        0 <= k <= b.len(),
    ensures
        k <= plain_end(b, k) <= b.len(),
    decreases b.len() - k,
{
    if 0 <= k < b.len() && !is_special(b, k) {
        lemma_plain_end_bounds(b, k + 1);
    }
}

fn special_at(bytes: &[u8], i: usize) -> (r: bool)
    requires
        i < bytes@.len(),
    ensures
        r == is_special(bytes@, i as int),
{
    let b = bytes[i];
    b == 96u8 || b == 91u8 || b == 42u8 || b == 95u8 || (b == 33u8 && i + 1 < bytes.len() && bytes[i + 1] == 91u8)
}

/// Where the run of plain text from `k` ends.
fn plain_run_end(bytes: &[u8], k: usize) -> (r: usize)
    requires
        k <= bytes@.len(),
    ensures
        r == plain_end(bytes@, k as int),
{
    let mut i = k;
    while i < bytes.len() && !special_at(bytes, i)
        invariant
            k <= i <= bytes@.len(),
            plain_end(bytes@, i as int) == plain_end(bytes@, k as int),
        decreases bytes@.len() - i,
    {
        i = i + 1;
    }
    i
}

/// Adds the span `start .. end` of kind `kind` when it is not empty.
fn push(spans: &mut Vec<TokenSpan>, start: usize, end: usize, kind: TokenKind)
    ensures
        start < end ==> final(spans)@ == old(spans)@.push(TokenSpan { start, end, kind }),
        start >= end ==> final(spans)@ == old(spans)@,
{
    if start < end {
        spans.push(TokenSpan { start, end, kind });
    }
}

/// The inline span at offset `i` and where the next one starts.
#[verifier::rlimit(40)]
fn inline_step(bytes: &[u8], i: usize) -> (r: (TokenSpan, usize))
    requires
        i < bytes@.len(),
    ensures
        i < r.1 <= bytes@.len(),
        r.0.start < r.0.end,
        inline_tokens(bytes@, i as int) == seq![r.0] + inline_tokens(bytes@, r.1 as int),
{
    let ghost b = bytes@;
    let c = bytes[i];
    if c == 96u8 {
        let start = i;
        let j = find_next_byte(bytes, i + 1, 96u8);
        let e = if j < bytes.len() { j + 1 } else { j };
        return (TokenSpan { start, end: e, kind: TokenKind::Code }, e);
    }
    if c == 33u8 && i + 1 < bytes.len() && bytes[i + 1] == 91u8 {
        if let Some(end) = scan_link(bytes, i + 1) {
            proof {
                lemma_find_byte_bounds(b, i + 2, 93u8);
                let k = find_byte(b, i + 2, 93u8);
                lemma_find_byte_bounds(b, k + 2, 41u8);
            }
            return (TokenSpan { start: i, end, kind: TokenKind::Link }, end);
        }
    }
    if c == 91u8 {
        if let Some(end) = scan_link(bytes, i) {
            proof {
                lemma_find_byte_bounds(b, i + 1, 93u8);
                let k = find_byte(b, i + 1, 93u8);
                lemma_find_byte_bounds(b, k + 2, 41u8);
            }
            return (TokenSpan { start: i, end, kind: TokenKind::Link }, end);
        }
    }
    if c == 42u8 || c == 95u8 {
        let marker = c;
        let start = i;
        let double = i + 1 < bytes.len() && bytes[i + 1] == marker;
        let k = if double { i + 2 } else { i + 1 };
        proof {
            lemma_emph_end_bounds(b, k as int, marker, double);
        }
        if let Some(end) = find_emph_close(bytes, k, marker, double) {
            return (TokenSpan { start, end, kind: TokenKind::Emphasis }, end);
        }
        return (TokenSpan { start, end: start + 1, kind: TokenKind::Text }, start + 1);
    }
    proof {
        lemma_plain_end_bounds(b, i + 1);
    }
    let j = plain_run_end(bytes, i + 1);
    (TokenSpan { start: i, end: j, kind: TokenKind::Text }, j)
}

/// Inline spans of a line: code, links, emphasis and plain text.
fn highlight_inline(line: &str, _indent: usize) -> (r: Vec<TokenSpan>)
    ensures
        r@ == inline_tokens(line.spec_bytes(), 0),
{
    let bytes = line.as_bytes();
    let mut spans: Vec<TokenSpan> = Vec::new();
    let mut i: usize = 0;
    let n = bytes.len();
    while i < n
        invariant
            n == bytes@.len(),
            i <= n,
            spans@ + inline_tokens(bytes@, i as int) == inline_tokens(bytes@, 0),
        decreases n - i,
    {
        let ghost before = spans@;
        let (t, next) = inline_step(bytes, i);
        push(&mut spans, t.start, t.end, t.kind);
        proof {
            assert(spans@ + inline_tokens(bytes@, next as int) =~= before + inline_tokens(bytes@, i as int));
        }
        i = next;
    }
    assert(spans@ + Seq::<TokenSpan>::empty() =~= spans@);
    spans
}

/// The spans of a Markdown line; the code-fence state moves along.
/// `spans` and `after` are what highlighting the Markdown line `line` gives,
/// from the state `before`.
pub open spec fn md_line_highlighted(line: Seq<char>, before: HighlightState, after: HighlightState, spans: Seq<TokenSpan>) -> bool {
    let t = vstd::utf8::encode_utf8(line.skip(leading_white(line) as int));
    let (expected, in_fence, marker) = md_line(
        vstd::utf8::encode_utf8(line),
        t,
        before.in_code_fence,
        vstd::utf8::encode_utf8(before.fence_marker@),
    );
    &&& spans == expected
    &&& after.in_code_fence == in_fence
    &&& vstd::utf8::encode_utf8(after.fence_marker@) == marker
    &&& after.in_string == before.in_string
    &&& after.string_escape == before.string_escape
}

fn highlight_md_line(line: &str, state: &mut HighlightState) -> (r: Vec<TokenSpan>)
    ensures
        md_line_highlighted(line@, *old(state), *final(state), r@),
{
    let trimmed_start = str_trim_start(line);
    proof {
        lemma_leading_white_len(line@);
        lemma_encode_skip_len(line@, leading_white(line@) as int);
    }
    let len = line.as_bytes().len();
    let trimmed_len = trimmed_start.as_bytes().len();
    let indent = len - trimmed_len;
    if state.in_code_fence {
        if is_closing_fence(trimmed_start, state.fence_marker.as_str()) {
            state.in_code_fence = false;
            state.fence_marker = String::new();
            let mut r: Vec<TokenSpan> = Vec::new();
            r.push(TokenSpan { start: 0, end: len, kind: TokenKind::Code });
            proof {
                assert(vstd::utf8::encode_utf8(state.fence_marker@) =~= Seq::<u8>::empty());
                assert(r@ =~= seq![span(0, len as int, TokenKind::Code)]);
            }
            return r;
        }
        let mut r: Vec<TokenSpan> = Vec::new();
        r.push(TokenSpan { start: 0, end: len, kind: TokenKind::Code });
        assert(r@ =~= seq![span(0, len as int, TokenKind::Code)]);
        return r;
    }
    if let Some(marker) = opening_fence(trimmed_start) {
        state.in_code_fence = true;
        state.fence_marker = marker;
        let mut r: Vec<TokenSpan> = Vec::new();
        r.push(TokenSpan { start: 0, end: len, kind: TokenKind::Code });
        assert(r@ =~= seq![span(0, len as int, TokenKind::Code)]);
        return r;
    }
    let tb = trimmed_start.as_bytes();
    if tb.len() > 0 && tb[0] == 35u8 {
        let hashes = count_run(tb, 35u8);
        proof {
            lemma_run_len_bounds(tb@, 0, 35u8);
        }
        if hashes > 0 && hashes <= 6 {
            if hashes == tb.len() || tb[hashes] == 32u8 {
                let mut r: Vec<TokenSpan> = Vec::new();
                r.push(TokenSpan { start: 0, end: len, kind: TokenKind::Heading });
                assert(r@ =~= seq![span(0, len as int, TokenKind::Heading)]);
                return r;
            }
        }
    }
    highlight_inline(line, indent)
}

/// The first index at or after `i` holding `x`, or the length.
pub open spec fn find_char(s: Seq<char>, i: int, x: char) -> int
    decreases s.len() - i,
{
    if i < 0 || i >= s.len() {
        s.len() as int
    } else if s[i] == x {
        i
    } else {
        find_char(s, i + 1, x)
    }
}

/// The lines of `s` from index `i` on, split at line feeds (as
/// `str::split('\n')` splits: a text ending in a line feed has an empty
/// last line).
pub open spec fn lines_from(s: Seq<char>, i: int) -> Seq<Seq<char>>
    decreases s.len() - i,
{
    let j = find_char(s, i, '\n');
    if i < 0 || i > s.len() || j >= s.len() || j < i {
        seq![s.subrange(i, s.len() as int)]
    } else {
        seq![s.subrange(i, j)] + lines_from(s, j + 1)
    }
}

/// `c` without one trailing carriage return.
pub open spec fn strip_cr(c: Seq<char>) -> Seq<char> {
    if c.len() > 0 && c.last() == '\r' {
        c.drop_last()
    } else {
        c
    }
}

/// `c` without its trailing white space.
pub open spec fn trim_end(c: Seq<char>) -> Seq<char>
    decreases c.len(),
{
    if c.len() > 0 && is_white_space(c.last()) {
        trim_end(c.drop_last())
    } else {
        c
    }
}

/// The text contains a carriage return followed by a line feed.
pub open spec fn has_crlf_chars(s: Seq<char>) -> bool {
    exists|j: int| 0 <= j && j + 1 < s.len() && #[trigger] s[j] == '\r' && s[j + 1] == '\n'
}

/// The line break the formatted text uses.
pub open spec fn newline_for(s: Seq<char>) -> Seq<char> {
    if has_crlf_chars(s) {
        seq!['\r', '\n']
    } else {
        seq!['\n']
    }
}

pub open spec fn ends_with_lf(s: Seq<char>) -> bool {
    s.len() > 0 && s.last() == '\n'
}

/// The formatted form of `lines`, after a run of `blank` blank lines: each
/// line without trailing white space, at most two blank lines in a row, the
/// empty line after a final line feed dropped.
pub open spec fn format_lines(lines: Seq<Seq<char>>, blank: nat, nl: Seq<char>, ends_lf: bool) -> Seq<char>
    decreases lines.len(),
{
    if lines.len() == 0 {
        Seq::empty()
    } else {
        let content = strip_cr(lines[0]);
        if lines.len() == 1 && content.len() == 0 && ends_lf {
            Seq::empty()
        } else {
            let t = trim_end(content);
            if t.len() == 0 {
                if blank < 2 {
                    nl + format_lines(lines.drop_first(), blank + 1, nl, ends_lf)
                } else {
                    format_lines(lines.drop_first(), blank, nl, ends_lf)
                }
            } else {
                t + nl + format_lines(lines.drop_first(), 0, nl, ends_lf)
            }
        }
    }
}

/// What `format_markdown` makes of `s`.
pub open spec fn formatted_markdown(s: Seq<char>) -> Seq<char> {
    let out = format_lines(lines_from(s, 0), 0, newline_for(s), ends_with_lf(s));
    if out.len() == 0 {
        Seq::empty()
    } else if out.last() != '\n' {
        out + newline_for(s)
    } else {
        out
    }
}

/// Formatted Markdown is empty or ends with a line feed.
pub proof fn lemma_formatted_ends_with_newline(s: Seq<char>)
    ensures
        formatted_markdown(s).len() > 0 ==> formatted_markdown(s).last() == '\n',
{
    let nl = newline_for(s);
    assert(nl.len() > 0 && nl.last() == '\n');
    let out = format_lines(lines_from(s, 0), 0, nl, ends_with_lf(s));
    if out.len() > 0 && out.last() != '\n' {
        assert((out + nl).last() == nl.last());
    }
}

/// `c` holds no line feed.
pub open spec fn no_lf(c: Seq<char>) -> bool {
    forall|i: int| 0 <= i < c.len() ==> c[i] != '\n'
}

/// `x` starts with `n` line feeds.
pub open spec fn starts_with_lfs(x: Seq<char>, n: int) -> bool {
    x.len() >= n && forall|i: int| 0 <= i < n ==> x[i] == '\n'
}

/// Four line feeds follow one another in `x` from `k`.
pub open spec fn four_lfs_at(x: Seq<char>, k: int) -> bool {
    &&& 0 <= k
    &&& k + 3 < x.len()
    &&& x[k] == '\n'
    &&& x[k + 1] == '\n'
    &&& x[k + 2] == '\n'
    &&& x[k + 3] == '\n'
}

proof fn lemma_find_char_first(s: Seq<char>, i: int, x: char)
    requires
        0 <= i,
    ensures
        forall|m: int| i <= m < find_char(s, i, x) && m < s.len() ==> s[m] != x,
    decreases s.len() - i,
{
    if 0 <= i < s.len() && s[i] != x {
        lemma_find_char_first(s, i + 1, x);
    }
}

proof fn lemma_lines_no_lf(s: Seq<char>, i: int)
    requires
        0 <= i <= s.len(),
    ensures
        forall|k: int| 0 <= k < lines_from(s, i).len() ==> no_lf(#[trigger] lines_from(s, i)[k]),
    decreases s.len() - i,
{
    let j = find_char(s, i, '\n');
    lemma_find_char_bounds(s, i, '\n');
    lemma_find_char_first(s, i, '\n');
    let first = s.subrange(i, if j >= s.len() { s.len() as int } else { j });
    assert(no_lf(first));
    if j < s.len() {
        lemma_lines_no_lf(s, j + 1);
        let rest = lines_from(s, j + 1);
        assert(lines_from(s, i) == seq![s.subrange(i, j)] + rest);
        assert forall|k: int| 0 <= k < lines_from(s, i).len() implies no_lf(#[trigger] lines_from(s, i)[k]) by {
            if k > 0 {
                assert(lines_from(s, i)[k] == rest[k - 1]);
            }
        }
    }
}

proof fn lemma_trim_end_prefix(c: Seq<char>)
    ensures
        trim_end(c).len() <= c.len(),
        trim_end(c) == c.take(trim_end(c).len() as int),
        trim_end(c).len() > 0 ==> !is_white_space(trim_end(c).last()),
    decreases c.len(),
{
    if c.len() > 0 && is_white_space(c.last()) {
        lemma_trim_end_prefix(c.drop_last());
        assert(c.drop_last().take(trim_end(c).len() as int) =~= c.take(trim_end(c).len() as int));
    } else {
        assert(c.take(c.len() as int) =~= c);
    }
}

proof fn lemma_line_text_no_lf(c: Seq<char>)
    requires
        no_lf(c),
    ensures
        no_lf(trim_end(strip_cr(c))),
{
    let a = strip_cr(c);
    assert(no_lf(a));
    lemma_trim_end_prefix(a);
    let t = trim_end(a);
    assert forall|i: int| 0 <= i < t.len() implies t[i] != '\n' by {
        assert(t[i] == a[i]);
    }
}

/// The formatted lines hold no four line feeds in a row, do not start with
/// `3 - blank` line feeds, and end with a line feed unless empty.
proof fn lemma_format_lines_runs(lines: Seq<Seq<char>>, blank: nat, nl: Seq<char>, ends_lf: bool)
    requires
        blank <= 2,
        nl == seq!['\n'] || nl == seq!['\r', '\n'],
        forall|k: int| 0 <= k < lines.len() ==> no_lf(#[trigger] lines[k]),
    ensures
        forall|k: int| !four_lfs_at(format_lines(lines, blank, nl, ends_lf), k),
        !starts_with_lfs(format_lines(lines, blank, nl, ends_lf), 3 - blank),
        format_lines(lines, blank, nl, ends_lf).len() > 0 ==> format_lines(lines, blank, nl, ends_lf).last() == '\n',
    decreases lines.len(),
{
    let f = format_lines(lines, blank, nl, ends_lf);
    if lines.len() == 0 {
        return;
    }
    let content = strip_cr(lines[0]);
    if lines.len() == 1 && content.len() == 0 && ends_lf {
        return;
    }
    let rest = lines.drop_first();
    assert forall|k: int| 0 <= k < rest.len() implies no_lf(#[trigger] rest[k]) by {
        assert(rest[k] == lines[k + 1]);
    }
    let t = trim_end(content);
    assert(no_lf(lines[0]));
    lemma_line_text_no_lf(lines[0]);
    if t.len() == 0 {
        if blank < 2 {
            let g = format_lines(rest, blank + 1, nl, ends_lf);
            lemma_format_lines_runs(rest, blank + 1, nl, ends_lf);
            assert(f == nl + g);
            if starts_with_lfs(g, 3) {
                assert(starts_with_lfs(g, 2 - blank));
            }
            assert forall|k: int| !four_lfs_at(f, k) by {
                if four_lfs_at(f, k) {
                    if k >= nl.len() {
                        assert(four_lfs_at(g, k - nl.len()));
                    } else if nl.len() == 1 {
                        assert(starts_with_lfs(g, 3));
                    } else if k == 1 {
                        assert(starts_with_lfs(g, 3));
                    }
                }
            }
            if starts_with_lfs(f, 3 - blank) {
                if nl.len() == 1 {
                    assert forall|i: int| 0 <= i < 2 - blank implies g[i] == '\n' by {
                        assert(f[i + 1] == g[i]);
                    }
                    assert(starts_with_lfs(g, 2 - blank));
                } else {
                    assert(f[0] == nl[0]);
                }
            }
            if g.len() > 0 {
                assert(f.last() == g.last());
            }
        } else {
            lemma_format_lines_runs(rest, blank, nl, ends_lf);
            assert(f == format_lines(rest, blank, nl, ends_lf));
        }
    } else {
        let g = format_lines(rest, 0, nl, ends_lf);
        lemma_format_lines_runs(rest, 0, nl, ends_lf);
        assert(f == t + nl + g);
        assert(t[0] != '\n');
        assert forall|k: int| !four_lfs_at(f, k) by {
            if four_lfs_at(f, k) {
                let m = t.len() + nl.len();
                if k < t.len() {
                    assert(f[k] == t[k]);
                } else if k >= m {
                    assert(four_lfs_at(g, k - m));
                } else if nl.len() == 1 || k == t.len() + 1 {
                    assert(starts_with_lfs(g, 3));
                } else {
                    assert(f[k] == '\r');
                }
            }
        }
        if starts_with_lfs(f, 3 - blank) {
            assert(f[0] == t[0]);
        }
        if g.len() > 0 {
            assert(f.last() == g.last());
        }
    }
}

/// Formatted Markdown keeps at most two blank lines in a row: no four line
/// feeds follow one another in it.
pub proof fn lemma_formatted_keeps_two_blank_lines(s: Seq<char>)
    ensures
        forall|k: int| !four_lfs_at(formatted_markdown(s), k),
{
    let nl = newline_for(s);
    let lines = lines_from(s, 0);
    lemma_lines_no_lf(s, 0);
    lemma_format_lines_runs(lines, 0, nl, ends_with_lf(s));
}

/// The line break `nl` stands in `x` at `k`.
pub open spec fn break_at(x: Seq<char>, nl: Seq<char>, k: int) -> bool {
    0 <= k && k + nl.len() <= x.len() && x.subrange(k, k + nl.len()) == nl
}

/// No line of `x` ends in white space: what stands before each line break
/// `nl` is the end of another line break or no white space.
pub open spec fn lines_trimmed(x: Seq<char>, nl: Seq<char>) -> bool {
    forall|k: int| 1 <= k && #[trigger] break_at(x, nl, k) ==> x[k - 1] == '\n' || !is_white_space(x[k - 1])
}

/// A line break in front of trimmed lines leaves them trimmed.
proof fn lemma_break_then_trimmed(nl: Seq<char>, g: Seq<char>)
    requires
        nl == seq!['\n'] || nl == seq!['\r', '\n'],
        lines_trimmed(g, nl),
    ensures
        lines_trimmed(nl + g, nl),
{
    let f = nl + g;
    assert forall|k: int| 1 <= k && #[trigger] break_at(f, nl, k) implies f[k - 1] == '\n' || !is_white_space(
        f[k - 1],
    ) by {
        let n = nl.len() as int;
        if k > n {
            assert(g.subrange(k - n, k - n + n) =~= f.subrange(k, k + n));
            assert(break_at(g, nl, k - n));
            assert(f[k - 1] == g[k - n - 1]);
        } else if k < n {
            assert(f.subrange(k, k + n)[0] == f[k]);
            assert(f[k] == '\n');
        } else {
            assert(f[k - 1] == nl[n - 1]);
        }
    }
}

/// A line with no line feed and no white space at its end, then a line
/// break, in front of trimmed lines leaves them trimmed.
proof fn lemma_line_then_trimmed(t: Seq<char>, nl: Seq<char>, g: Seq<char>)
    requires
        nl == seq!['\n'] || nl == seq!['\r', '\n'],
        t.len() > 0,
        forall|i: int| 0 <= i < t.len() ==> t[i] != '\n',
        !is_white_space(t.last()),
        lines_trimmed(g, nl),
    ensures
        lines_trimmed(t + nl + g, nl),
{
    let f = t + nl + g;
    assert forall|k: int| 1 <= k && #[trigger] break_at(f, nl, k) implies f[k - 1] == '\n' || !is_white_space(
        f[k - 1],
    ) by {
        let n = nl.len() as int;
        let m = t.len() + n;
        assert(f.subrange(k, k + n)[0] == f[k]);
        assert(f.subrange(k, k + n)[n - 1] == f[k + n - 1]);
        if k < t.len() {
            assert(f[k] == t[k]);
            if n == 1 {
                assert(t[k] != '\n');
            } else if k + 1 < t.len() {
                assert(f[k + 1] == t[k + 1]);
                assert(t[k + 1] != '\n');
            } else {
                assert(t[k] == t.last());
                assert(f[k] == '\r');
            }
        } else if k == t.len() {
            assert(f[k - 1] == t.last());
        } else if k < m {
            assert(f[k] == nl[k - t.len()]);
        } else if k == m {
            assert(f[k - 1] == nl[n - 1]);
        } else {
            assert(g.subrange(k - m, k - m + n) =~= f.subrange(k, k + n));
            assert(break_at(g, nl, k - m));
            assert(f[k - 1] == g[k - m - 1]);
        }
    }
}

#[verifier::spinoff_prover]
proof fn lemma_format_lines_trimmed(lines: Seq<Seq<char>>, blank: nat, nl: Seq<char>, ends_lf: bool)
    requires
        nl == seq!['\n'] || nl == seq!['\r', '\n'],
        forall|k: int| 0 <= k < lines.len() ==> no_lf(#[trigger] lines[k]),
    ensures
        lines_trimmed(format_lines(lines, blank, nl, ends_lf), nl),
    decreases lines.len(),
{
    let f = format_lines(lines, blank, nl, ends_lf);
    if lines.len() == 0 {
        return;
    }
    let content = strip_cr(lines[0]);
    if lines.len() == 1 && content.len() == 0 && ends_lf {
        return;
    }
    let rest = lines.drop_first();
    assert forall|k: int| 0 <= k < rest.len() implies no_lf(#[trigger] rest[k]) by {
        assert(rest[k] == lines[k + 1]);
    }
    let t = trim_end(content);
    assert(no_lf(lines[0]));
    lemma_line_text_no_lf(lines[0]);
    lemma_trim_end_prefix(content);
    if t.len() == 0 {
        if blank < 2 {
            let g = format_lines(rest, blank + 1, nl, ends_lf);
            lemma_format_lines_trimmed(rest, blank + 1, nl, ends_lf);
            assert(f == nl + g);
            lemma_break_then_trimmed(nl, g);
        } else {
            lemma_format_lines_trimmed(rest, blank, nl, ends_lf);
            assert(f == format_lines(rest, blank, nl, ends_lf));
        }
    } else {
        let g = format_lines(rest, 0, nl, ends_lf);
        lemma_format_lines_trimmed(rest, 0, nl, ends_lf);
        assert(f == t + nl + g);
        lemma_line_then_trimmed(t, nl, g);
    }
}

/// No line of formatted Markdown ends in white space: the character before
/// each line break is the end of another line break or no white space.
pub proof fn lemma_formatted_lines_trimmed(s: Seq<char>)
    ensures
        lines_trimmed(formatted_markdown(s), newline_for(s)),
{
    let nl = newline_for(s);
    let lines = lines_from(s, 0);
    lemma_lines_no_lf(s, 0);
    lemma_format_lines_trimmed(lines, 0, nl, ends_with_lf(s));
    lemma_format_lines_runs(lines, 0, nl, ends_with_lf(s));
}

proof fn lemma_find_char_shift(p: Seq<char>, q: Seq<char>, j: int, x: char)
    requires
        0 <= j,
    ensures
        find_char(p + q, p.len() + j, x) == p.len() + find_char(q, j, x),
    decreases q.len() - j,
{
    let s = p + q;
    if j < q.len() {
        assert(s[p.len() + j] == q[j]);
        if q[j] != x {
            lemma_find_char_shift(p, q, j + 1, x);
        }
    }
}

proof fn lemma_find_char_at(s: Seq<char>, i: int, m: int, x: char)
    requires
        0 <= i <= m < s.len(),
        s[m] == x,
        forall|k: int| i <= k < m ==> s[k] != x,
    ensures
        find_char(s, i, x) == m,
    decreases m - i,
{
    if i < m {
        lemma_find_char_at(s, i + 1, m, x);
    }
}

proof fn lemma_find_char_before(s: Seq<char>, i: int, m: int, x: char)
    requires
        0 <= i <= m < s.len(),
        s[m] == x,
    ensures
        find_char(s, i, x) <= m,
    decreases m - i,
{
    if i < m && s[i] != x {
        lemma_find_char_before(s, i + 1, m, x);
    }
}

proof fn lemma_lines_nonempty(s: Seq<char>, i: int)
    ensures
        lines_from(s, i).len() >= 1,
    decreases s.len() - i,
{
    let j = find_char(s, i, '\n');
    if !(i < 0 || i > s.len() || j >= s.len() || j < i) {
        lemma_lines_nonempty(s, j + 1);
    }
}

proof fn lemma_lines_shift(p: Seq<char>, q: Seq<char>, j: int)
    requires
        0 <= j <= q.len(),
    ensures
        lines_from(p + q, p.len() + j) == lines_from(q, j),
    decreases q.len() - j,
{
    let s = p + q;
    let i = p.len() + j;
    lemma_find_char_shift(p, q, j, '\n');
    lemma_find_char_bounds(q, j, '\n');
    let k = find_char(q, j, '\n');
    if k >= q.len() {
        assert(s.subrange(i, s.len() as int) =~= q.subrange(j, q.len() as int));
    } else {
        assert(s.subrange(i, p.len() + k) =~= q.subrange(j, k));
        lemma_lines_shift(p, q, k + 1);
    }
}

/// A line `l` (no line feed in it) and its line feed come first among the
/// lines of `l + "\n" + y`.
proof fn lemma_lines_of_block(l: Seq<char>, y: Seq<char>)
    requires
        no_lf(l),
    ensures
        lines_from(l + seq!['\n'] + y, 0) == seq![l] + lines_from(y, 0),
{
    let p = l + seq!['\n'];
    let s = p + y;
    assert(s[l.len() as int] == '\n');
    assert forall|k: int| 0 <= k < l.len() implies s[k] != '\n' by {
        assert(s[k] == l[k]);
    }
    lemma_find_char_at(s, 0, l.len() as int, '\n');
    assert(s.subrange(0, l.len() as int) =~= l);
    lemma_lines_shift(p, y, 0);
    assert(p.len() + 0 == l.len() + 1);
}

/// Formatting the formatted lines again, from the same run of blank lines,
/// gives them back.
proof fn lemma_reformat_lines(lines: Seq<Seq<char>>, blank: nat, nl: Seq<char>, ends_lf: bool)
    requires
        blank <= 2,
        nl == seq!['\n'] || nl == seq!['\r', '\n'],
        forall|k: int| 0 <= k < lines.len() ==> no_lf(#[trigger] lines[k]),
    ensures
        format_lines(lines_from(format_lines(lines, blank, nl, ends_lf), 0), blank, nl, true) == format_lines(
            lines,
            blank,
            nl,
            ends_lf,
        ),
    decreases lines.len(),
{
    let f = format_lines(lines, blank, nl, ends_lf);
    let empty = Seq::<char>::empty();
    if lines.len() == 0 || (lines.len() == 1 && strip_cr(lines[0]).len() == 0 && ends_lf) {
        assert(f == empty);
        assert(find_char(empty, 0, '\n') == 0);
        assert(lines_from(empty, 0) == seq![empty.subrange(0, 0)]);
        assert(empty.subrange(0, 0) =~= empty);
        return;
    }
    let content = strip_cr(lines[0]);
    let rest = lines.drop_first();
    assert forall|k: int| 0 <= k < rest.len() implies no_lf(#[trigger] rest[k]) by {
        assert(rest[k] == lines[k + 1]);
    }
    let t = trim_end(content);
    assert(no_lf(lines[0]));
    lemma_line_text_no_lf(lines[0]);
    lemma_trim_end_prefix(content);
    let head = nl.drop_last();
    assert(head + seq!['\n'] =~= nl);
    if t.len() == 0 {
        if blank < 2 {
            let g = format_lines(rest, blank + 1, nl, ends_lf);
            lemma_reformat_lines(rest, blank + 1, nl, ends_lf);
            assert(f == nl + g);
            assert(no_lf(head));
            lemma_lines_of_block(head, g);
            assert(f == head + seq!['\n'] + g);
            let l2 = lines_from(g, 0);
            lemma_lines_nonempty(g, 0);
            let all = seq![head] + l2;
            assert(all[0] == head);
            assert(all.drop_first() =~= l2);
            assert(strip_cr(head).len() == 0);
            assert(trim_end(strip_cr(head)) =~= empty);
        } else {
            lemma_reformat_lines(rest, blank, nl, ends_lf);
            assert(f == format_lines(rest, blank, nl, ends_lf));
        }
    } else {
        let g = format_lines(rest, 0, nl, ends_lf);
        lemma_reformat_lines(rest, 0, nl, ends_lf);
        assert(f == t + nl + g);
        let line = t + head;
        assert(no_lf(line));
        assert(f =~= line + seq!['\n'] + g);
        lemma_lines_of_block(line, g);
        let l2 = lines_from(g, 0);
        lemma_lines_nonempty(g, 0);
        let all = seq![line] + l2;
        assert(all[0] == line);
        assert(all.drop_first() =~= l2);
        assert(t.last() != '\r');
        if head.len() == 0 {
            assert(line =~= t);
            assert(strip_cr(line) == t);
        } else {
            assert(line.drop_last() =~= t);
            assert(strip_cr(line) == t);
        }
        assert(trim_end(t) == t);
    }
}

/// Formatted lines written with line feeds hold no carriage return before
/// a line feed.
proof fn lemma_format_lines_lf_only(lines: Seq<Seq<char>>, blank: nat, ends_lf: bool)
    requires
        forall|k: int| 0 <= k < lines.len() ==> no_lf(#[trigger] lines[k]),
    ensures
        !has_crlf_chars(format_lines(lines, blank, seq!['\n'], ends_lf)),
    decreases lines.len(),
{
    let nl = seq!['\n'];
    let f = format_lines(lines, blank, nl, ends_lf);
    if lines.len() == 0 {
        return;
    }
    let content = strip_cr(lines[0]);
    if lines.len() == 1 && content.len() == 0 && ends_lf {
        return;
    }
    let rest = lines.drop_first();
    assert forall|k: int| 0 <= k < rest.len() implies no_lf(#[trigger] rest[k]) by {
        assert(rest[k] == lines[k + 1]);
    }
    let t = trim_end(content);
    assert(no_lf(lines[0]));
    lemma_line_text_no_lf(lines[0]);
    lemma_trim_end_prefix(content);
    if t.len() == 0 {
        if blank < 2 {
            let g = format_lines(rest, blank + 1, nl, ends_lf);
            lemma_format_lines_lf_only(rest, blank + 1, ends_lf);
            assert(f == nl + g);
            assert forall|j: int| 0 <= j && j + 1 < f.len() implies !(#[trigger] f[j] == '\r' && f[j + 1] == '\n') by {
                if j >= 1 {
                    assert(f[j] == g[j - 1]);
                    assert(f[j + 1] == g[j]);
                }
            }
        } else {
            lemma_format_lines_lf_only(rest, blank, ends_lf);
            assert(f == format_lines(rest, blank, nl, ends_lf));
        }
    } else {
        let g = format_lines(rest, 0, nl, ends_lf);
        lemma_format_lines_lf_only(rest, 0, ends_lf);
        assert(f == t + nl + g);
        assert forall|j: int| 0 <= j && j + 1 < f.len() implies !(#[trigger] f[j] == '\r' && f[j + 1] == '\n') by {
            let m = t.len() + 1;
            if j + 1 < t.len() {
                assert(f[j + 1] == t[j + 1]);
            } else if j + 1 == t.len() {
                assert(f[j] == t.last());
            } else if j >= m {
                assert(f[j] == g[j - m]);
                assert(f[j + 1] == g[j + 1 - m]);
            } else {
                assert(f[j] == '\n');
            }
        }
    }
}

/// Formatted Markdown is never empty: even an empty text gives one line
/// break.
proof fn lemma_format_nonempty(s: Seq<char>)
    ensures
        format_lines(lines_from(s, 0), 0, newline_for(s), ends_with_lf(s)).len() > 0,
{
    let lines = lines_from(s, 0);
    let nl = newline_for(s);
    lemma_lines_nonempty(s, 0);
    lemma_find_char_bounds(s, 0, '\n');
    if ends_with_lf(s) {
        lemma_find_char_before(s, 0, s.len() - 1, '\n');
        let j = find_char(s, 0, '\n');
        lemma_lines_nonempty(s, j + 1);
        assert(lines.len() >= 2);
    }
    let content = strip_cr(lines[0]);
    let t = trim_end(content);
    if t.len() == 0 {
        assert(format_lines(lines, 0, nl, ends_with_lf(s)) == nl + format_lines(lines.drop_first(), 1, nl, ends_with_lf(s)));
    } else {
        assert(format_lines(lines, 0, nl, ends_with_lf(s)) == t + nl + format_lines(lines.drop_first(), 0, nl, ends_with_lf(s)));
    }
}

/// Formatted lines, when there are any, end with the line break.
proof fn lemma_format_lines_end(lines: Seq<Seq<char>>, blank: nat, nl: Seq<char>, ends_lf: bool)
    ensures
        format_lines(lines, blank, nl, ends_lf).len() > 0 ==> {
            let f = format_lines(lines, blank, nl, ends_lf);
            f.len() >= nl.len() && f.subrange(f.len() - nl.len(), f.len() as int) == nl
        },
    decreases lines.len(),
{
    let f = format_lines(lines, blank, nl, ends_lf);
    if lines.len() == 0 {
        return;
    }
    let content = strip_cr(lines[0]);
    if lines.len() == 1 && content.len() == 0 && ends_lf {
        return;
    }
    let rest = lines.drop_first();
    let t = trim_end(content);
    let next = if t.len() == 0 && blank < 2 {
        blank + 1
    } else if t.len() == 0 {
        blank
    } else {
        0
    };
    let g = format_lines(rest, next as nat, nl, ends_lf);
    lemma_format_lines_end(rest, next as nat, nl, ends_lf);
    let pre = if t.len() == 0 && blank < 2 {
        nl
    } else if t.len() == 0 {
        Seq::<char>::empty()
    } else {
        t + nl
    };
    assert(f == pre + g);
    if g.len() > 0 {
        assert(f.subrange(f.len() - nl.len(), f.len() as int) =~= g.subrange(g.len() - nl.len(), g.len() as int));
    } else if pre.len() > 0 {
        assert(f.subrange(f.len() - nl.len(), f.len() as int) =~= nl);
    }
}

/// Formatting formatted Markdown changes nothing.
pub proof fn lemma_format_idempotent(s: Seq<char>)
    ensures
        formatted_markdown(formatted_markdown(s)) == formatted_markdown(s),
{
    let nl = newline_for(s);
    let lines = lines_from(s, 0);
    let out = format_lines(lines, 0, nl, ends_with_lf(s));
    lemma_lines_no_lf(s, 0);
    lemma_format_lines_runs(lines, 0, nl, ends_with_lf(s));
    lemma_format_nonempty(s);
    assert(out.len() > 0 && out.last() == '\n');
    assert(formatted_markdown(s) == out);
    assert(ends_with_lf(out));
    if has_crlf_chars(s) {
        lemma_format_lines_end(lines, 0, nl, ends_with_lf(s));
        assert(out.subrange(out.len() - 2, out.len() as int)[0] == out[out.len() - 2]);
        assert(out[out.len() - 2] == '\r');
        assert(has_crlf_chars(out));
    } else {
        lemma_format_lines_lf_only(lines, 0, ends_with_lf(s));
    }
    assert(newline_for(out) == nl);
    lemma_reformat_lines(lines, 0, nl, ends_with_lf(s));
}

/// The lines of `lines` that hold more than white space, each without its
/// trailing white space, in order.
pub open spec fn text_lines(lines: Seq<Seq<char>>) -> Seq<Seq<char>>
    decreases lines.len(),
{
    if lines.len() == 0 {
        Seq::empty()
    } else {
        let t = trim_end(strip_cr(lines[0]));
        let first = if t.len() == 0 { Seq::<Seq<char>>::empty() } else { seq![t] };
        first + text_lines(lines.drop_first())
    }
}

proof fn lemma_format_keeps_text_lines(lines: Seq<Seq<char>>, blank: nat, nl: Seq<char>, ends_lf: bool)
    requires
        nl == seq!['\n'] || nl == seq!['\r', '\n'],
        forall|k: int| 0 <= k < lines.len() ==> no_lf(#[trigger] lines[k]),
    ensures
        text_lines(lines_from(format_lines(lines, blank, nl, ends_lf), 0)) == text_lines(lines),
    decreases lines.len(),
{
    let f = format_lines(lines, blank, nl, ends_lf);
    let empty = Seq::<char>::empty();
    if lines.len() == 0 || (lines.len() == 1 && strip_cr(lines[0]).len() == 0 && ends_lf) {
        assert(f == empty);
        assert(find_char(empty, 0, '\n') == 0);
        assert(lines_from(empty, 0) == seq![empty.subrange(0, 0)]);
        assert(empty.subrange(0, 0) =~= empty);
        let one = seq![empty];
        let none = Seq::<Seq<char>>::empty();
        assert(one.drop_first() =~= none);
        assert(one[0] == empty);
        assert(strip_cr(empty) == empty);
        assert(trim_end(empty) == empty);
        assert(text_lines(none) == none);
        assert(text_lines(one) =~= Seq::<Seq<char>>::empty());
        if lines.len() == 1 {
            lemma_trim_end_prefix(strip_cr(lines[0]));
            assert(lines.drop_first() =~= none);
            assert(trim_end(strip_cr(lines[0])).len() == 0);
            assert(text_lines(lines) =~= none);
        }
        return;
    }
    let content = strip_cr(lines[0]);
    let rest = lines.drop_first();
    assert forall|k: int| 0 <= k < rest.len() implies no_lf(#[trigger] rest[k]) by {
        assert(rest[k] == lines[k + 1]);
    }
    let t = trim_end(content);
    assert(no_lf(lines[0]));
    lemma_line_text_no_lf(lines[0]);
    lemma_trim_end_prefix(content);
    let head = nl.drop_last();
    assert(head + seq!['\n'] =~= nl);
    if t.len() == 0 {
        assert(text_lines(lines) =~= text_lines(rest));
        if blank < 2 {
            let g = format_lines(rest, blank + 1, nl, ends_lf);
            lemma_format_keeps_text_lines(rest, blank + 1, nl, ends_lf);
            assert(f == nl + g);
            assert(no_lf(head));
            lemma_lines_of_block(head, g);
            assert(f == head + seq!['\n'] + g);
            let l2 = lines_from(g, 0);
            let all = seq![head] + l2;
            assert(all[0] == head);
            assert(all.drop_first() =~= l2);
            assert(strip_cr(head).len() == 0);
            assert(trim_end(strip_cr(head)) =~= empty);
            assert(text_lines(all) =~= text_lines(l2));
        } else {
            lemma_format_keeps_text_lines(rest, blank, nl, ends_lf);
            assert(f == format_lines(rest, blank, nl, ends_lf));
        }
    } else {
        assert(text_lines(lines) =~= seq![t] + text_lines(rest));
        let g = format_lines(rest, 0, nl, ends_lf);
        lemma_format_keeps_text_lines(rest, 0, nl, ends_lf);
        assert(f == t + nl + g);
        let line = t + head;
        assert(no_lf(line));
        assert(f =~= line + seq!['\n'] + g);
        lemma_lines_of_block(line, g);
        let l2 = lines_from(g, 0);
        let all = seq![line] + l2;
        assert(all[0] == line);
        assert(all.drop_first() =~= l2);
        assert(t.last() != '\r');
        if head.len() == 0 {
            assert(line =~= t);
            assert(strip_cr(line) == t);
        } else {
            assert(line.drop_last() =~= t);
            assert(strip_cr(line) == t);
        }
        assert(trim_end(t) == t);
        assert(text_lines(all) =~= seq![t] + text_lines(l2));
    }
}

/// Formatting keeps the lines that hold text, in their order, each without
/// its trailing white space: only blank lines and trailing white space
/// change.
pub proof fn lemma_formatted_keeps_text_lines(s: Seq<char>)
    ensures
        text_lines(lines_from(formatted_markdown(s), 0)) == text_lines(lines_from(s, 0)),
{
    let nl = newline_for(s);
    let lines = lines_from(s, 0);
    let out = format_lines(lines, 0, nl, ends_with_lf(s));
    lemma_lines_no_lf(s, 0);
    lemma_format_lines_runs(lines, 0, nl, ends_with_lf(s));
    lemma_format_nonempty(s);
    assert(formatted_markdown(s) == out);
    lemma_format_keeps_text_lines(lines, 0, nl, ends_with_lf(s));
}

/// A line that holds nothing but white space (and its line break).
pub open spec fn is_blank_line(l: Seq<char>) -> bool {
    trim_end(strip_cr(l)).len() == 0
}

/// Lines `k`, `k + 1` and `k + 2` of `lines` are blank, and none of them is
/// the last (which follows the final line break).
pub open spec fn three_blank_at(lines: Seq<Seq<char>>, k: int) -> bool {
    &&& 0 <= k
    &&& k + 3 < lines.len()
    &&& is_blank_line(lines[k])
    &&& is_blank_line(lines[k + 1])
    &&& is_blank_line(lines[k + 2])
}

/// The first `n` lines of `lines` are blank, and none of them is the last.
pub open spec fn starts_blank_run(lines: Seq<Seq<char>>, n: int) -> bool {
    n < lines.len() && forall|i: int| 0 <= i < n ==> is_blank_line(#[trigger] lines[i])
}

proof fn lemma_blank_runs_after(x: Seq<char>, rest: Seq<Seq<char>>)
    ensures
        forall|k: int| 1 <= k ==> (three_blank_at(seq![x] + rest, k) <==> three_blank_at(rest, k - 1)),
        forall|n: int| 1 <= n ==> (starts_blank_run(seq![x] + rest, n) <==> (is_blank_line(x) && starts_blank_run(rest, n - 1))),
{
    let all = seq![x] + rest;
    assert forall|k: int| 1 <= k implies (three_blank_at(all, k) <==> three_blank_at(rest, k - 1)) by {
        if 0 <= k - 1 && k + 2 < all.len() {
            assert(all[k] == rest[k - 1]);
            assert(all[k + 1] == rest[k]);
            assert(all[k + 2] == rest[k + 1]);
        }
    }
    assert forall|n: int| 1 <= n implies (starts_blank_run(all, n) <==> (is_blank_line(x) && starts_blank_run(rest, n - 1))) by {
        if starts_blank_run(all, n) {
            assert(all[0] == x);
            assert(is_blank_line(all[0]));
            assert forall|i: int| 0 <= i < n - 1 implies is_blank_line(#[trigger] rest[i]) by {
                assert(all[i + 1] == rest[i]);
                assert(is_blank_line(all[i + 1]));
            }
        }
        if is_blank_line(x) && starts_blank_run(rest, n - 1) {
            assert forall|i: int| 0 <= i < n implies is_blank_line(#[trigger] all[i]) by {
                if i == 0 {
                    assert(all[0] == x);
                } else {
                    assert(all[i] == rest[i - 1]);
                }
            }
        }
    }
}

proof fn lemma_format_blank_runs(lines: Seq<Seq<char>>, blank: nat, nl: Seq<char>, ends_lf: bool)
    requires
        blank <= 2,
        nl == seq!['\n'] || nl == seq!['\r', '\n'],
        forall|k: int| 0 <= k < lines.len() ==> no_lf(#[trigger] lines[k]),
    ensures
        ({
            let r = lines_from(format_lines(lines, blank, nl, ends_lf), 0);
            &&& forall|k: int| !#[trigger] three_blank_at(r, k)
            &&& !starts_blank_run(r, 3 - blank)
        }),
    decreases lines.len(),
{
    let f = format_lines(lines, blank, nl, ends_lf);
    let empty = Seq::<char>::empty();
    if lines.len() == 0 || (lines.len() == 1 && strip_cr(lines[0]).len() == 0 && ends_lf) {
        assert(f == empty);
        assert(find_char(empty, 0, '\n') == 0);
        assert(lines_from(empty, 0) == seq![empty.subrange(0, 0)]);
        return;
    }
    let content = strip_cr(lines[0]);
    let rest = lines.drop_first();
    assert forall|k: int| 0 <= k < rest.len() implies no_lf(#[trigger] rest[k]) by {
        assert(rest[k] == lines[k + 1]);
    }
    let t = trim_end(content);
    assert(no_lf(lines[0]));
    lemma_line_text_no_lf(lines[0]);
    lemma_trim_end_prefix(content);
    let head = nl.drop_last();
    assert(head + seq!['\n'] =~= nl);
    if t.len() == 0 {
        if blank < 2 {
            let g = format_lines(rest, blank + 1, nl, ends_lf);
            lemma_format_blank_runs(rest, blank + 1, nl, ends_lf);
            assert(f == nl + g);
            assert(no_lf(head));
            lemma_lines_of_block(head, g);
            assert(f == head + seq!['\n'] + g);
            let l2 = lines_from(g, 0);
            let all = seq![head] + l2;
            assert(strip_cr(head).len() == 0);
            assert(trim_end(strip_cr(head)) =~= empty);
            assert(is_blank_line(head));
            lemma_blank_runs_after(head, l2);
            assert(!three_blank_at(all, 0)) by {
                if three_blank_at(all, 0) {
                    assert(all[1] == l2[0]);
                    assert(all[2] == l2[1]);
                    assert(starts_blank_run(l2, 2 - blank)) by {
                        assert forall|i: int| 0 <= i < 2 - blank implies is_blank_line(#[trigger] l2[i]) by {
                            assert(all[i + 1] == l2[i]);
                        }
                    }
                }
            }
            assert forall|k: int| !#[trigger] three_blank_at(all, k) by {
                if k >= 1 {
                    assert(three_blank_at(all, k) <==> three_blank_at(l2, k - 1));
                }
            }
            assert(!starts_blank_run(all, 3 - blank));
        } else {
            lemma_format_blank_runs(rest, blank, nl, ends_lf);
            assert(f == format_lines(rest, blank, nl, ends_lf));
        }
    } else {
        let g = format_lines(rest, 0, nl, ends_lf);
        lemma_format_blank_runs(rest, 0, nl, ends_lf);
        assert(f == t + nl + g);
        let line = t + head;
        assert(no_lf(line));
        assert(f =~= line + seq!['\n'] + g);
        lemma_lines_of_block(line, g);
        let l2 = lines_from(g, 0);
        let all = seq![line] + l2;
        assert(t.last() != '\r');
        if head.len() == 0 {
            assert(line =~= t);
            assert(strip_cr(line) == t);
        } else {
            assert(line.drop_last() =~= t);
            assert(strip_cr(line) == t);
        }
        assert(trim_end(t) == t);
        assert(!is_blank_line(line));
        lemma_blank_runs_after(line, l2);
        assert(all[0] == line);
        assert forall|k: int| !#[trigger] three_blank_at(all, k) by {
            if k >= 1 {
                assert(three_blank_at(all, k) <==> three_blank_at(l2, k - 1));
            }
        }
        assert(!starts_blank_run(all, 3 - blank));
    }
}

/// Formatted Markdown never holds three blank lines in a row, whatever its
/// line breaks.
pub proof fn lemma_formatted_no_three_blank_lines(s: Seq<char>)
    ensures
        forall|k: int| !#[trigger] three_blank_at(lines_from(formatted_markdown(s), 0), k),
{
    let nl = newline_for(s);
    let lines = lines_from(s, 0);
    let out = format_lines(lines, 0, nl, ends_with_lf(s));
    lemma_lines_no_lf(s, 0);
    lemma_format_lines_runs(lines, 0, nl, ends_with_lf(s));
    lemma_format_nonempty(s);
    assert(formatted_markdown(s) == out);
    lemma_format_blank_runs(lines, 0, nl, ends_with_lf(s));
}

/// What Format Document guarantees of Markdown, in one place: the result
/// is never empty and ends with the text's line break; no line ends in
/// white space; there are never three blank lines in a row; and the lines
/// that hold text are the input's, in order, without trailing white space.
pub proof fn lemma_format_markdown_law(s: Seq<char>)
    ensures
        ({
            let r = formatted_markdown(s);
            let nl = newline_for(s);
            &&& r.len() >= nl.len() > 0
            &&& r.subrange(r.len() - nl.len(), r.len() as int) == nl
            &&& lines_trimmed(r, nl)
            &&& forall|k: int| !#[trigger] three_blank_at(lines_from(r, 0), k)
            &&& text_lines(lines_from(r, 0)) == text_lines(lines_from(s, 0))
        }),
{
    let nl = newline_for(s);
    let lines = lines_from(s, 0);
    let out = format_lines(lines, 0, nl, ends_with_lf(s));
    lemma_lines_no_lf(s, 0);
    lemma_format_lines_runs(lines, 0, nl, ends_with_lf(s));
    lemma_format_nonempty(s);
    assert(formatted_markdown(s) == out);
    lemma_format_lines_end(lines, 0, nl, ends_with_lf(s));
    lemma_formatted_lines_trimmed(s);
    lemma_formatted_no_three_blank_lines(s);
    lemma_formatted_keeps_text_lines(s);
}

proof fn lemma_find_char_bounds(s: Seq<char>, i: int, x: char)
    requires
        0 <= i,
    ensures
        i <= s.len() ==> i <= find_char(s, i, x) <= s.len(),
        find_char(s, i, x) < s.len() ==> s[find_char(s, i, x)] == x,
    decreases s.len() - i,
{
    if 0 <= i < s.len() && s[i] != x {
        lemma_find_char_bounds(s, i + 1, x);
    }
}

/// Trims trailing white space, keeps at most two blank lines in a row, and
/// ends the text with one line break.
pub fn format_markdown(text: &str) -> (r: String)
    ensures
        r@ == formatted_markdown(text@),
{
    let chars = chars_of(text);
    let ghost s = chars@;
    let n = chars.len();
    let mut crlf = false;
    let mut k: usize = 0;
    while n > 0 && k < n - 1
        invariant
            s == chars@,
            n == s.len(),
            crlf <==> exists|j: int| 0 <= j < k && j + 1 < s.len() && #[trigger] s[j] == '\r' && s[j + 1] == '\n',
        decreases n - k,
    {
        if chars[k] == '\r' && chars[k + 1] == '\n' {
            crlf = true;
        }
        k = k + 1;
    }
    let mut nl: Vec<char> = Vec::new();
    if crlf {
        nl.push('\r');
    }
    nl.push('\n');
    proof {
        if has_crlf_chars(s) {
            let j = choose|j: int| 0 <= j && j + 1 < s.len() && #[trigger] s[j] == '\r' && s[j + 1] == '\n';
            assert(j < k);
        }
        assert(nl@ =~= newline_for(s));
    }
    let ends_lf = n > 0 && chars[n - 1] == '\n';
    let ghost target = format_lines(lines_from(s, 0), 0, nl@, ends_lf);
    let mut out: Vec<char> = Vec::new();
    let mut blank_run: usize = 0;
    let mut i: usize = 0;
    loop
        invariant_except_break
            blank_run <= 2,
            out@ + format_lines(lines_from(s, i as int), blank_run as nat, nl@, ends_lf) == target,
        invariant
            s == chars@,
            n == s.len(),
            i <= n,
        ensures
            out@ == target,
        decreases n - i,
    {
        let ghost before = out@;
        let ghost old_blank = blank_run;
        let ghost rest = lines_from(s, i as int);
        let mut j = i;
        while j < n && chars[j] != '\n'
            invariant
                i <= j <= n,
                n == chars@.len(),
                find_char(chars@, j as int, '\n') == find_char(chars@, i as int, '\n'),
            decreases n - j,
        {
            j = j + 1;
        }
        proof {
            lemma_find_char_bounds(s, i as int, '\n');
        }
        let is_last = j >= n;
        let ghost seg = s.subrange(i as int, j as int);
        proof {
            if !is_last {
                assert(rest == seq![seg] + lines_from(s, j + 1));
                assert(rest.drop_first() =~= lines_from(s, j + 1));
            } else {
                assert(rest == seq![seg]);
                assert(rest.drop_first() =~= Seq::<Seq<char>>::empty());
            }
            assert(rest[0] == seg);
        }
        let mut cend = j;
        if cend > i && chars[cend - 1] == '\r' {
            cend = cend - 1;
        }
        proof {
            assert(strip_cr(seg) =~= s.subrange(i as int, cend as int));
        }
        if is_last && cend == i && ends_lf {
            proof {
                assert(format_lines(rest, blank_run as nat, nl@, ends_lf) =~= Seq::<char>::empty());
                assert(out@ + Seq::<char>::empty() =~= out@);
            }
            break;
        }
        let mut tend = cend;
        while tend > i && white_space(chars[tend - 1])
            invariant
                i <= tend <= cend <= n,
                n == chars@.len(),
                trim_end(chars@.subrange(i as int, tend as int)) == trim_end(chars@.subrange(i as int, cend as int)),
            decreases tend,
        {
            assert(chars@.subrange(i as int, tend as int).drop_last() =~= chars@.subrange(i as int, tend - 1));
            tend = tend - 1;
        }
        proof {
            let c = s.subrange(i as int, tend as int);
            if c.len() > 0 {
                assert(c.last() == s[tend - 1]);
            }
            assert(trim_end(c) == c);
        }
        if tend == i {
            if blank_run < 2 {
                blank_run = blank_run + 1;
                let mut t: usize = 0;
                while t < nl.len()
                    invariant
                        t <= nl@.len(),
                        out@ == before + nl@.take(t as int),
                    decreases nl@.len() - t,
                {
                    out.push(nl[t]);
                    t = t + 1;
                    assert(out@ =~= before + nl@.take(t as int));
                }
                assert(nl@.take(nl@.len() as int) =~= nl@);
            }
        } else {
            let mut t = i;
            while t < tend
                invariant
                    i <= t <= tend <= n,
                    n == chars@.len(),
                    out@ == before + chars@.subrange(i as int, t as int),
                decreases tend - t,
            {
                out.push(chars[t]);
                t = t + 1;
                assert(out@ =~= before + chars@.subrange(i as int, t as int));
            }
            let ghost mid = out@;
            let mut q: usize = 0;
            while q < nl.len()
                invariant
                    q <= nl@.len(),
                    out@ == mid + nl@.take(q as int),
                decreases nl@.len() - q,
            {
                out.push(nl[q]);
                q = q + 1;
                assert(out@ =~= mid + nl@.take(q as int));
            }
            assert(nl@.take(nl@.len() as int) =~= nl@);
            blank_run = 0;
        }
        proof {
            let content = strip_cr(rest[0]);
            let t = trim_end(content);
            assert(content == s.subrange(i as int, cend as int));
            assert(t =~= s.subrange(i as int, tend as int));
            assert(!(rest.len() == 1 && content.len() == 0 && ends_lf));
            if tend == i {
                assert(t.len() == 0);
                if old_blank < 2 {
                    assert(format_lines(rest, old_blank as nat, nl@, ends_lf) == nl@ + format_lines(rest.drop_first(), (old_blank + 1) as nat, nl@, ends_lf));
                    assert(out@ =~= before + nl@);
                } else {
                    assert(format_lines(rest, old_blank as nat, nl@, ends_lf) == format_lines(rest.drop_first(), old_blank as nat, nl@, ends_lf));
                }
                assert(out@ + format_lines(rest.drop_first(), blank_run as nat, nl@, ends_lf) =~= before + format_lines(rest, old_blank as nat, nl@, ends_lf));
            } else {
                assert(t.len() > 0);
                assert(format_lines(rest, old_blank as nat, nl@, ends_lf) == t + nl@ + format_lines(rest.drop_first(), 0, nl@, ends_lf));
                assert(out@ =~= before + t + nl@);
                assert(out@ + format_lines(rest.drop_first(), blank_run as nat, nl@, ends_lf) =~= before + format_lines(rest, old_blank as nat, nl@, ends_lf));
            }
        }
        if is_last {
            break;
        }
        i = j + 1;
    }
    if out.len() == 0 {
        return string_from_chars(out.as_slice());
    }
    if out[out.len() - 1] != '\n' {
        let mut q: usize = 0;
        let ghost mid = out@;
        while q < nl.len()
            invariant
                q <= nl@.len(),
                out@ == mid + nl@.take(q as int),
            decreases nl@.len() - q,
        {
            out.push(nl[q]);
            q = q + 1;
            assert(out@ =~= mid + nl@.take(q as int));
        }
        assert(nl@.take(nl@.len() as int) =~= nl@);
    }
    string_from_chars(out.as_slice())
}

impl LanguageMode for MarkdownMode {
    fn id(&self) -> (r: LanguageId)
        ensures
            r == LanguageId::Markdown,
    {
        LanguageId::Markdown
    }

    fn display_name(&self) -> (r: &'static str)
        ensures
            r@ == "Markdown"@,
    {
        "Markdown"
    }

    fn extensions(&self) -> (r: &'static [&'static str])
        ensures
            r@.len() == 2,
            r@[0]@ == "md"@,
            r@[1]@ == "markdown"@,
    {
        &["md", "markdown"]
    }

    fn sniff(&self, sample: &[u8]) -> (r: bool)
        ensures
            !r,
    {
        false
    }

    fn highlight_line(&self, line: &str, state: &mut HighlightState) -> (r: Vec<TokenSpan>)
        ensures
            md_line_highlighted(line@, *old(state), *final(state), r@),
    {
        highlight_md_line(line, state)
    }

    fn format(&self, text: &str) -> (r: Result<String, String>)
        ensures
            r matches Ok(out) && out@ == formatted_markdown(text@),
    {
        Ok(format_markdown(text))
    }
}

} // verus!

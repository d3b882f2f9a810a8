use vstd::prelude::*;
use vstd::string::*;
use crate::language::{lemma_spans_cons, spans_from, HighlightState, LanguageId, LanguageMode, TokenKind, TokenSpan};
use crate::text::{ascii_alnum, ascii_digit, ascii_space, is_ascii_alnum, is_ascii_digit, is_ascii_space};

verus! {

/// The JSON language mode.
pub struct JsonMode;

pub open spec fn span(start: int, end: int, kind: TokenKind) -> TokenSpan {
    TokenSpan { start: start as usize, end: end as usize, kind }
}

/// Where a string body that starts at `i` ends: just past its closing
/// quote, or at the end of the line (the string then continues); with the
/// escape flag left over.
pub open spec fn string_end(b: Seq<u8>, i: int, esc: bool) -> (int, bool, bool)
    decreases b.len() - i,
{
    if i >= b.len() {
        (b.len() as int, true, esc)
    } else if esc {
        string_end(b, i + 1, false)
    } else if b[i] == 92u8 {
        string_end(b, i + 1, true)
    } else if b[i] == 34u8 {
        (i + 1, false, false)
    } else {
        string_end(b, i + 1, false)
    }
}

/// The first offset at or after `i` that is not ASCII whitespace.
pub open spec fn skip_spaces(b: Seq<u8>, i: int) -> int
    decreases b.len() - i,
{
    if i < b.len() && is_ascii_space(b[i]) {
        skip_spaces(b, i + 1)
    } else {
        i
    }
}

/// A colon follows offset `j`, past whitespace: the string before it is a key.
pub open spec fn key_follows(b: Seq<u8>, j: int) -> bool {
    let k = skip_spaces(b, j);
    0 <= k < b.len() && b[k] == 58u8
}

/// The first offset at or after `i` that is not an ASCII digit.
pub open spec fn digits_end(b: Seq<u8>, i: int) -> int
    decreases b.len() - i,
{
    if i < b.len() && is_ascii_digit(b[i]) {
        digits_end(b, i + 1)
    } else {
        i
    }
}

/// Where a number that starts at `i` ends: optional minus, digits, optional
/// fraction, optional exponent.
pub open spec fn number_end(b: Seq<u8>, i: int) -> int {
    let i1 = if i < b.len() && b[i] == 45u8 { i + 1 } else { i };
    let i2 = digits_end(b, i1);
    let i3 = if i2 < b.len() && b[i2] == 46u8 { digits_end(b, i2 + 1) } else { i2 };
    if i3 < b.len() && (b[i3] == 101u8 || b[i3] == 69u8) {
        let i4 = i3 + 1;
        let i5 = if i4 < b.len() && (b[i4] == 43u8 || b[i4] == 45u8) { i4 + 1 } else { i4 };
        digits_end(b, i5)
    } else {
        i3
    }
}

/// Where the literal `lit` that starts at `i` ends, when it is there and is
/// not followed by a letter, digit or underscore.
pub open spec fn literal_end(b: Seq<u8>, i: int, lit: Seq<u8>) -> Option<int> {
    let end = i + lit.len();
    if 0 <= i && end <= b.len() && b.subrange(i, end) == lit && (end == b.len() || !(is_ascii_alnum(b[end])
        || b[end] == 95u8)) {
        Some(end)
    } else {
        None
    }
}

pub open spec fn lit_true() -> Seq<u8> {
    seq![116u8, 114u8, 117u8, 101u8]
}

pub open spec fn lit_false() -> Seq<u8> {
    seq![102u8, 97u8, 108u8, 115u8, 101u8]
}

pub open spec fn lit_null() -> Seq<u8> {
    seq![110u8, 117u8, 108u8, 108u8]
}

/// The keyword literal (`true`, `false`, `null`) that starts at `i`.
pub open spec fn keyword_end(b: Seq<u8>, i: int) -> Option<int> {
    match literal_end(b, i, lit_true()) {
        Some(e) => Some(e),
        None => match literal_end(b, i, lit_false()) {
            Some(e) => Some(e),
            None => literal_end(b, i, lit_null()),
        },
    }
}

pub open spec fn is_json_punct(c: u8) -> bool {
    c == 123u8 || c == 125u8 || c == 91u8 || c == 93u8 || c == 58u8 || c == 44u8
}

/// The spans of a JSON line from offset `i` on, starting inside a string or
/// not and with the given escape flag; with the string state at the end of
/// the line.
pub open spec fn json_tokens(b: Seq<u8>, i: int, in_str: bool, esc: bool) -> (Seq<TokenSpan>, bool, bool)
    decreases b.len() - i,
{
    if i < 0 || i >= b.len() {
        (Seq::empty(), in_str, esc)
    } else if in_str {
        let (j, s2, e2) = string_end(b, i, esc);
        if j <= i || j > b.len() {
            (Seq::empty(), in_str, esc)
        } else {
            let (rest, s3, e3) = json_tokens(b, j, s2, e2);
            (seq![span(i, j, TokenKind::String)] + rest, s3, e3)
        }
    } else {
        let c = b[i];
        if c == 32u8 || c == 9u8 || c == 13u8 {
            json_tokens(b, i + 1, in_str, esc)
        } else if c == 34u8 {
            let (j, s2, e2) = string_end(b, i + 1, false);
            let kind = if key_follows(b, j) { TokenKind::Keyword } else { TokenKind::String };
            if j <= i || j > b.len() {
                (Seq::empty(), in_str, esc)
            } else {
                let (rest, s3, e3) = json_tokens(b, j, s2, e2);
                (seq![span(i, j, kind)] + rest, s3, e3)
            }
        } else if is_json_punct(c) {
            let (rest, s3, e3) = json_tokens(b, i + 1, in_str, esc);
            (seq![span(i, i + 1, TokenKind::Punctuation)] + rest, s3, e3)
        } else if c == 116u8 || c == 102u8 || c == 110u8 {
            match keyword_end(b, i) {
                Some(e) => if e <= i || e > b.len() {
                    (Seq::empty(), in_str, esc)
                } else {
                    let (rest, s3, e3) = json_tokens(b, e, in_str, esc);
                    (seq![span(i, e, TokenKind::Keyword)] + rest, s3, e3)
                },
                None => {
                    let (rest, s3, e3) = json_tokens(b, i + 1, in_str, esc);
                    (seq![span(i, i + 1, TokenKind::Text)] + rest, s3, e3)
                },
            }
        } else if c == 45u8 || is_ascii_digit(c) {
            let e = number_end(b, i);
            if e <= i || e > b.len() {
                (Seq::empty(), in_str, esc)
            } else {
                let (rest, s3, e3) = json_tokens(b, e, in_str, esc);
                (seq![span(i, e, TokenKind::Number)] + rest, s3, e3)
            }
        } else {
            let (rest, s3, e3) = json_tokens(b, i + 1, in_str, esc);
            (seq![span(i, i + 1, TokenKind::Text)] + rest, s3, e3)
        }
    }
}

/// JSON tokens come in order within the line, from where scanning starts.
pub proof fn lemma_json_spans_in_order(b: Seq<u8>, i: int, in_str: bool, esc: bool)
    requires
        0 <= i,
        b.len() <= usize::MAX,
    ensures
        spans_from(json_tokens(b, i, in_str, esc).0, i, b.len() as int),
    decreases b.len() - i,
{
    if i >= b.len() {
        return;
    }
    if in_str {
        let (j, s2, e2) = string_end(b, i, esc);
        if !(j <= i || j > b.len()) {
            lemma_json_spans_in_order(b, j, s2, e2);
            lemma_spans_cons(span(i, j, TokenKind::String), json_tokens(b, j, s2, e2).0, b.len() as int);
        }
    } else {
        let c = b[i];
        if c == 32u8 || c == 9u8 || c == 13u8 {
            lemma_json_spans_in_order(b, i + 1, in_str, esc);
        } else if c == 34u8 {
            let (j, s2, e2) = string_end(b, i + 1, false);
            let kind = if key_follows(b, j) { TokenKind::Keyword } else { TokenKind::String };
            if !(j <= i || j > b.len()) {
                lemma_json_spans_in_order(b, j, s2, e2);
                lemma_spans_cons(span(i, j, kind), json_tokens(b, j, s2, e2).0, b.len() as int);
            }
        } else if is_json_punct(c) {
            lemma_json_spans_in_order(b, i + 1, in_str, esc);
            lemma_spans_cons(span(i, i + 1, TokenKind::Punctuation), json_tokens(b, i + 1, in_str, esc).0, b.len() as int);
        } else if c == 116u8 || c == 102u8 || c == 110u8 {
            match keyword_end(b, i) {
                Some(e) => if !(e <= i || e > b.len()) {
                    lemma_json_spans_in_order(b, e, in_str, esc);
                    lemma_spans_cons(span(i, e, TokenKind::Keyword), json_tokens(b, e, in_str, esc).0, b.len() as int);
                },
                None => {
                    lemma_json_spans_in_order(b, i + 1, in_str, esc);
                    lemma_spans_cons(span(i, i + 1, TokenKind::Text), json_tokens(b, i + 1, in_str, esc).0, b.len() as int);
                },
            }
        } else if c == 45u8 || is_ascii_digit(c) {
            let e = number_end(b, i);
            if !(e <= i || e > b.len()) {
                lemma_json_spans_in_order(b, e, in_str, esc);
                lemma_spans_cons(span(i, e, TokenKind::Number), json_tokens(b, e, in_str, esc).0, b.len() as int);
            }
        } else {
            lemma_json_spans_in_order(b, i + 1, in_str, esc);
            lemma_spans_cons(span(i, i + 1, TokenKind::Text), json_tokens(b, i + 1, in_str, esc).0, b.len() as int);
        }
    }
}

/// Offset `k` lies inside one of `spans`.
pub open spec fn covered(spans: Seq<TokenSpan>, k: int) -> bool {
    exists|t: int| 0 <= t < spans.len() && #[trigger] spans[t].start <= k < spans[t].end
}

/// The white space JSON highlighting leaves between tokens: space, tab,
/// carriage return.
pub open spec fn is_json_gap(c: u8) -> bool {
    c == 32u8 || c == 9u8 || c == 13u8
}

/// Every byte of `b` in `lo .. hi` outside `spans` is white space.
pub open spec fn gaps_are_space(spans: Seq<TokenSpan>, b: Seq<u8>, lo: int, hi: int) -> bool {
    forall|k: int| lo <= k < hi && !#[trigger] covered(spans, k) ==> is_json_gap(b[k])
}

proof fn lemma_gaps_cons(first: TokenSpan, rest: Seq<TokenSpan>, b: Seq<u8>, hi: int)
    requires
        first.start <= first.end,
        gaps_are_space(rest, b, first.end as int, hi),
    ensures
        gaps_are_space(seq![first] + rest, b, first.start as int, hi),
{
    let all = seq![first] + rest;
    assert forall|k: int| first.start <= k < hi && !#[trigger] covered(all, k) implies is_json_gap(b[k]) by {
        if k < first.end {
            assert(all[0] == first);
            assert(covered(all, k));
        } else if covered(rest, k) {
            let t = choose|t: int| 0 <= t < rest.len() && #[trigger] rest[t].start <= k < rest[t].end;
            assert(all[t + 1] == rest[t]);
            assert(covered(all, k));
        }
    }
}

/// Every byte of a JSON line from where scanning starts lies in one of its
/// spans, except the white space between tokens.
pub proof fn lemma_json_gaps_are_space(b: Seq<u8>, i: int, in_str: bool, esc: bool)
    requires
        0 <= i <= b.len(),
        b.len() <= usize::MAX,
    ensures
        gaps_are_space(json_tokens(b, i, in_str, esc).0, b, i, b.len() as int),
    decreases b.len() - i,
{
    let len = b.len() as int;
    if i >= b.len() {
        return;
    }
    if in_str {
        lemma_string_end_bounds(b, i, esc);
        let (j, s2, e2) = string_end(b, i, esc);
        lemma_json_gaps_are_space(b, j, s2, e2);
        lemma_gaps_cons(span(i, j, TokenKind::String), json_tokens(b, j, s2, e2).0, b, len);
    } else {
        let c = b[i];
        if c == 32u8 || c == 9u8 || c == 13u8 {
            lemma_json_gaps_are_space(b, i + 1, in_str, esc);
        } else if c == 34u8 {
            lemma_string_end_bounds(b, i + 1, false);
            let (j, s2, e2) = string_end(b, i + 1, false);
            let kind = if key_follows(b, j) { TokenKind::Keyword } else { TokenKind::String };
            lemma_json_gaps_are_space(b, j, s2, e2);
            lemma_gaps_cons(span(i, j, kind), json_tokens(b, j, s2, e2).0, b, len);
        } else if is_json_punct(c) {
            lemma_json_gaps_are_space(b, i + 1, in_str, esc);
            lemma_gaps_cons(span(i, i + 1, TokenKind::Punctuation), json_tokens(b, i + 1, in_str, esc).0, b, len);
        } else if c == 116u8 || c == 102u8 || c == 110u8 {
            match keyword_end(b, i) {
                Some(e) => {
                    lemma_json_gaps_are_space(b, e, in_str, esc);
                    lemma_gaps_cons(span(i, e, TokenKind::Keyword), json_tokens(b, e, in_str, esc).0, b, len);
                },
                None => {
                    lemma_json_gaps_are_space(b, i + 1, in_str, esc);
                    lemma_gaps_cons(span(i, i + 1, TokenKind::Text), json_tokens(b, i + 1, in_str, esc).0, b, len);
                },
            }
        } else if c == 45u8 || is_ascii_digit(c) {
            lemma_number_end_bounds(b, i);
            let e = number_end(b, i);
            lemma_json_gaps_are_space(b, e, in_str, esc);
            lemma_gaps_cons(span(i, e, TokenKind::Number), json_tokens(b, e, in_str, esc).0, b, len);
        } else {
            lemma_json_gaps_are_space(b, i + 1, in_str, esc);
            lemma_gaps_cons(span(i, i + 1, TokenKind::Text), json_tokens(b, i + 1, in_str, esc).0, b, len);
        }
    }
}

proof fn lemma_string_end_open(b: Seq<u8>, i: int, esc: bool)
    requires
        0 <= i <= b.len(),
    ensures
        string_end(b, i, esc).1 ==> string_end(b, i, esc).0 == b.len(),
    decreases b.len() - i,
{
    if i < b.len() {
        lemma_string_end_open(b, i + 1, false);
        lemma_string_end_open(b, i + 1, true);
    }
}

/// Any of the spans of a JSON line from `i` begins the spans scanned from
/// its own start, in some string state; outside a string, unless it is the
/// very first span of a scan that started inside one.
#[verifier::spinoff_prover]
#[verifier::rlimit(60)]
proof fn lemma_json_suffix(b: Seq<u8>, i: int, in_str: bool, esc: bool, k: int) -> (st: (bool, bool))
    requires
        0 <= i <= b.len(),
        b.len() <= usize::MAX,
        0 <= k < json_tokens(b, i, in_str, esc).0.len(),
    ensures
        json_tokens(b, i, in_str, esc).0[k].start < b.len(),
        json_tokens(b, i, in_str, esc).0.skip(k) == json_tokens(
            b,
            json_tokens(b, i, in_str, esc).0[k].start as int,
            st.0,
            st.1,
        ).0,
        (k > 0 || !in_str) ==> !st.0,
    decreases b.len() - i,
{
    let toks = json_tokens(b, i, in_str, esc).0;
    if in_str {
        lemma_string_end_bounds(b, i, esc);
        lemma_string_end_open(b, i, esc);
        let (j, s2, e2) = string_end(b, i, esc);
        let rest = json_tokens(b, j, s2, e2).0;
        assert(toks == seq![toks[0]] + rest);
        if k == 0 {
            assert(toks.skip(0) =~= toks);
            return (in_str, esc);
        }
        assert(toks.skip(k) =~= rest.skip(k - 1));
        assert(toks[k] == rest[k - 1]);
        return lemma_json_suffix(b, j, s2, e2, k - 1);
    }
    let c = b[i];
    if c == 32u8 || c == 9u8 || c == 13u8 {
        return lemma_json_suffix(b, i + 1, in_str, esc, k);
    }
    if c == 34u8 {
        lemma_string_end_bounds(b, i + 1, false);
        lemma_string_end_open(b, i + 1, false);
        let (j, s2, e2) = string_end(b, i + 1, false);
        let rest = json_tokens(b, j, s2, e2).0;
        assert(toks == seq![toks[0]] + rest);
        if k == 0 {
            assert(toks.skip(0) =~= toks);
            return (in_str, esc);
        }
        assert(toks.skip(k) =~= rest.skip(k - 1));
        assert(toks[k] == rest[k - 1]);
        return lemma_json_suffix(b, j, s2, e2, k - 1);
    }
    let e: int = if is_json_punct(c) {
        i + 1
    } else if c == 116u8 || c == 102u8 || c == 110u8 {
        match keyword_end(b, i) {
            Some(x) => x,
            None => i + 1,
        }
    } else if c == 45u8 || is_ascii_digit(c) {
        lemma_number_end_bounds(b, i);
        number_end(b, i)
    } else {
        i + 1
    };
    let rest = json_tokens(b, e, in_str, esc).0;
    assert(toks == seq![toks[0]] + rest);
    if k == 0 {
        assert(toks.skip(0) =~= toks);
        return (in_str, esc);
    }
    assert(toks.skip(k) =~= rest.skip(k - 1));
    assert(toks[k] == rest[k - 1]);
    lemma_json_suffix(b, e, in_str, esc, k - 1)
}

/// The literals `true`, `false` and `null` in a highlighted JSON line: a
/// span that starts, outside a string, where a literal stands that no
/// letter, digit or underscore follows is that literal, as a Keyword.
pub proof fn lemma_json_literals(
    line: Seq<u8>,
    before: HighlightState,
    after: HighlightState,
    spans: Seq<TokenSpan>,
    k: int,
    lit: Seq<u8>,
)
    requires
        json_line_highlighted(line, before, after, spans),
        line.len() <= usize::MAX,
        0 <= k < spans.len(),
        k > 0 || !before.in_string,
        lit == seq![116u8, 114u8, 117u8, 101u8] || lit == seq![102u8, 97u8, 108u8, 115u8, 101u8] || lit == seq![
            110u8,
            117u8,
            108u8,
            108u8,
        ],
    ensures
        ({
            let i = spans[k].start as int;
            let end = i + lit.len();
            end <= line.len() && line.subrange(i, end) == lit && (end == line.len() || !(is_ascii_alnum(line[end])
                || line[end] == 95u8)) ==> spans[k] == span(i, end, TokenKind::Keyword)
        }),
{
    let st = lemma_json_suffix(line, 0, before.in_string, before.string_escape, k);
    let i = spans[k].start as int;
    let end = i + lit.len();
    let from_i = json_tokens(line, i, st.0, st.1).0;
    assert(spans.skip(k)[0] == spans[k]);
    assert(from_i[0] == spans[k]);
    if end <= line.len() && line.subrange(i, end) == lit && (end == line.len() || !(is_ascii_alnum(line[end])
        || line[end] == 95u8)) {
        assert(line[i] == line.subrange(i, end)[0]);
        if lit[0] != 116u8 && i + 4 <= line.len() {
            assert(line.subrange(i, i + 4)[0] == line[i]);
            assert(line.subrange(i, i + 4) != lit_true());
        }
        if lit[0] == 110u8 && i + 5 <= line.len() {
            assert(line.subrange(i, i + 5)[0] == line[i]);
            assert(line.subrange(i, i + 5) != lit_false());
        }
    }
}

proof fn lemma_string_end_plain(b: Seq<u8>, x: int, j: int)
    requires
        0 <= x <= j < b.len(),
        b[j] == 34u8,
        forall|y: int| x <= y < j ==> b[y] != 34u8 && b[y] != 92u8,
    ensures
        string_end(b, x, false) == (j + 1, false, false),
    decreases j - x,
{
    if x < j {
        lemma_string_end_plain(b, x + 1, j);
    }
}

proof fn lemma_skip_spaces_exact(b: Seq<u8>, x: int, m: int)
    requires
        0 <= x <= m <= b.len(),
        forall|y: int| x <= y < m ==> is_ascii_space(b[y]),
        m == b.len() || !is_ascii_space(b[m]),
    ensures
        skip_spaces(b, x) == m,
    decreases m - x,
{
    if x < m {
        lemma_skip_spaces_exact(b, x + 1, m);
    }
}

/// The tokens of a highlighted JSON line, span by span: a span that starts
/// outside a string at a bracket, brace, colon or comma is that character,
/// as Punctuation; at a minus sign or a digit, a Number; at any other
/// character that starts no token (not a quote, not the first letter of a
/// literal, not white space), that character alone, as Text; at a quote
/// with a later quote and neither quote nor backslash between, the string
/// up to that quote, as a Keyword when the next character after it that is
/// not white space is a colon, else as a String.
pub proof fn lemma_json_tokens_by_kind(
    line: Seq<u8>,
    before: HighlightState,
    after: HighlightState,
    spans: Seq<TokenSpan>,
    k: int,
)
    requires
        json_line_highlighted(line, before, after, spans),
        line.len() <= usize::MAX,
        0 <= k < spans.len(),
        k > 0 || !before.in_string,
    ensures
        spans[k].start < line.len(),
        ({
            let i = spans[k].start as int;
            let c = line[i];
            (c == 123u8 || c == 125u8 || c == 91u8 || c == 93u8 || c == 58u8 || c == 44u8) ==> spans[k] == span(
                i,
                i + 1,
                TokenKind::Punctuation,
            )
        }),
        ({
            let i = spans[k].start as int;
            let c = line[i];
            (c == 45u8 || (48u8 <= c <= 57u8)) ==> spans[k].kind == TokenKind::Number && i < spans[k].end
        }),
        ({
            let i = spans[k].start as int;
            let c = line[i];
            !(c == 123u8 || c == 125u8 || c == 91u8 || c == 93u8 || c == 58u8 || c == 44u8 || c == 45u8 || (48u8
                <= c <= 57u8) || c == 34u8 || c == 116u8 || c == 102u8 || c == 110u8 || c == 32u8 || c == 9u8 || c
                == 13u8) ==> spans[k] == span(i, i + 1, TokenKind::Text)
        }),
        forall|j: int, m: int|
            line[spans[k].start as int] == 34u8 && spans[k].start < j < line.len() && #[trigger] line[j] == 34u8 && (forall|y: int|
                spans[k].start < y < j ==> line[y] != 34u8 && line[y] != 92u8) && j + 1 <= m <= line.len() && (forall|y: int|
                j + 1 <= y < m ==> is_ascii_space(line[y])) && (m == line.len() || !is_ascii_space(#[trigger] line[m])) ==> spans[k] == span(
                spans[k].start as int,
                j + 1,
                if m < line.len() && line[m] == 58u8 { TokenKind::Keyword } else { TokenKind::String },
            ),
{
    let st = lemma_json_suffix(line, 0, before.in_string, before.string_escape, k);
    let i = spans[k].start as int;
    let from_i = json_tokens(line, i, st.0, st.1).0;
    assert(spans.skip(k)[0] == spans[k]);
    assert(from_i[0] == spans[k]);
    let c = line[i];
    if c == 45u8 || (48u8 <= c <= 57u8) {
        lemma_number_end_bounds(line, i);
    }
    assert forall|j: int, m: int|
        line[spans[k].start as int] == 34u8 && spans[k].start < j < line.len() && #[trigger] line[j] == 34u8 && (forall|y: int|
                spans[k].start < y < j ==> line[y] != 34u8 && line[y] != 92u8) && j + 1 <= m <= line.len() && (forall|y: int|
                j + 1 <= y < m ==> is_ascii_space(line[y])) && (m == line.len() || !is_ascii_space(#[trigger] line[m])) implies spans[k] == span(
                spans[k].start as int,
                j + 1,
                if m < line.len() && line[m] == 58u8 { TokenKind::Keyword } else { TokenKind::String },
            ) by {
        lemma_string_end_plain(line, i + 1, j);
        lemma_skip_spaces_exact(line, j + 1, m);
        assert(string_end(line, i + 1, false) == (j + 1, false, false));
        assert(key_follows(line, j + 1) == (m < line.len() && line[m] == 58u8));
    }
}

/// The bytes of `bytes` after its leading ASCII whitespace.
fn trim_ascii_start(bytes: &[u8]) -> (r: &[u8])
    ensures
        r@ == bytes@.skip(skip_spaces(bytes@, 0)),
{
    let mut i: usize = 0;
    while i < bytes.len() && ascii_space(bytes[i])
        invariant
            i <= bytes@.len(),
            skip_spaces(bytes@, i as int) == skip_spaces(bytes@, 0),
        decreases bytes@.len() - i,
    {
        i = i + 1;
    }
    let r = vstd::slice::slice_subrange(bytes, i, bytes.len());
    assert(r@ =~= bytes@.skip(i as int));
    r
}

/// Adds the span `start .. end` of kind `kind` when it is not empty.
fn push_span(spans: &mut Vec<TokenSpan>, start: usize, end: usize, kind: TokenKind)
    ensures
        start < end ==> final(spans)@ == old(spans)@.push(TokenSpan { start, end, kind }),
        start >= end ==> final(spans)@ == old(spans)@,
{
    if start < end {
        spans.push(TokenSpan { start, end, kind });
    }
}

/// Whether a colon follows offset `i`, past whitespace.
fn peek_is_key(bytes: &[u8], i: usize) -> (r: bool)
    ensures
        r == key_follows(bytes@, i as int),
{
    let mut i = i;
    let ghost i0 = i as int;
    while i < bytes.len() && ascii_space(bytes[i])
        invariant
            skip_spaces(bytes@, i as int) == skip_spaces(bytes@, i0),
            i0 <= i,
        decreases bytes@.len() - i,
    {
        i = i + 1;
    }
    i < bytes.len() && bytes[i] == 58u8
}

/// Where `lit` ends when it starts at `i` and is not followed by a letter,
/// digit or underscore.
fn match_literal(bytes: &[u8], i: usize, lit: &[u8]) -> (r: Option<usize>)
    requires
        i <= bytes@.len(),
    ensures
        r matches Some(e) ==> literal_end(bytes@, i as int, lit@) == Some(e as int),
        r is None ==> literal_end(bytes@, i as int, lit@) is None,
{
    let n = lit.len();
    if n > bytes.len() - i {
        return None;
    }
    let mut k: usize = 0;
    while k < n
        invariant
            n == lit@.len(),
            i + n <= bytes@.len(),
            bytes@.len() <= usize::MAX,
            k <= n,
            forall|t: int| 0 <= t < k ==> bytes@[i + t] == lit@[t],
        decreases n - k,
    {
        if bytes[i + k] != lit[k] {
            assert(bytes@.subrange(i as int, i + n)[k as int] != lit@[k as int]);
            return None;
        }
        k = k + 1;
    }
    assert(bytes@.subrange(i as int, i + n) =~= lit@);
    let end = i + n;
    let ok_boundary = if end < bytes.len() {
        let c = bytes[end];
        !ascii_alnum(c) && c != 95u8
    } else {
        true
    };
    if ok_boundary {
        Some(end)
    } else {
        None
    }
}

/// Where the number that starts at `i` ends.
fn scan_number(bytes: &[u8], i: usize) -> (r: usize)
    requires
        i <= bytes@.len(),
    ensures
        r == number_end(bytes@, i as int),
        i <= r <= bytes@.len(),
{
    let mut i = i;
    let ghost b = bytes@;
    if i < bytes.len() && bytes[i] == 45u8 {
        i = i + 1;
    }
    let ghost i1 = i as int;
    while i < bytes.len() && ascii_digit(bytes[i])
        invariant
            i1 <= i <= b.len(),
            b == bytes@,
            digits_end(b, i as int) == digits_end(b, i1),
        decreases b.len() - i,
    {
        i = i + 1;
    }
    let ghost i2 = i as int;
    if i < bytes.len() && bytes[i] == 46u8 {
        i = i + 1;
        while i < bytes.len() && ascii_digit(bytes[i])
            invariant
                i2 + 1 <= i <= b.len(),
                b == bytes@,
                digits_end(b, i as int) == digits_end(b, i2 + 1),
            decreases b.len() - i,
        {
            i = i + 1;
        }
    }
    let ghost i3 = i as int;
    if i < bytes.len() && (bytes[i] == 101u8 || bytes[i] == 69u8) {
        i = i + 1;
        if i < bytes.len() && (bytes[i] == 43u8 || bytes[i] == 45u8) {
            i = i + 1;
        }
        let ghost i5 = i as int;
        while i < bytes.len() && ascii_digit(bytes[i])
            invariant
                i5 <= i <= b.len(),
                b == bytes@,
                digits_end(b, i as int) == digits_end(b, i5),
            decreases b.len() - i,
        {
            i = i + 1;
        }
    }
    i
}

proof fn lemma_string_end_bounds(b: Seq<u8>, i: int, esc: bool)
    requires
        0 <= i <= b.len(),
    ensures
        i <= string_end(b, i, esc).0 <= b.len(),
        i < b.len() ==> i < string_end(b, i, esc).0,
    decreases b.len() - i,
{
    if i < b.len() {
        lemma_string_end_bounds(b, i + 1, false);
        lemma_string_end_bounds(b, i + 1, true);
    }
}

proof fn lemma_digits_end_bounds(b: Seq<u8>, i: int)
    requires
        0 <= i <= b.len(),
    ensures
        i <= digits_end(b, i) <= b.len(),
    decreases b.len() - i,
{
    if i < b.len() && is_ascii_digit(b[i]) {
        lemma_digits_end_bounds(b, i + 1);
    }
}

proof fn lemma_number_end_bounds(b: Seq<u8>, i: int)
    requires
        0 <= i < b.len(),
        b[i] == 45u8 || is_ascii_digit(b[i]),
    ensures
        i < number_end(b, i) <= b.len(),
{
    let i1 = if i < b.len() && b[i] == 45u8 { i + 1 } else { i };
    lemma_digits_end_bounds(b, i1);
    let i2 = digits_end(b, i1);
    if i1 == i {
        assert(digits_end(b, i) == digits_end(b, i + 1));
        lemma_digits_end_bounds(b, i + 1);
    }
    if i2 < b.len() && b[i2] == 46u8 {
        lemma_digits_end_bounds(b, i2 + 1);
    }
    let i3 = if i2 < b.len() && b[i2] == 46u8 { digits_end(b, i2 + 1) } else { i2 };
    if i3 < b.len() && (b[i3] == 101u8 || b[i3] == 69u8) {
        let i4 = i3 + 1;
        let i5 = if i4 < b.len() && (b[i4] == 43u8 || b[i4] == 45u8) { i4 + 1 } else { i4 };
        lemma_digits_end_bounds(b, i5);
    }
}

/// Scans a string body from `i`: where it ends and the string state after.
fn scan_string(bytes: &[u8], i: usize, esc: bool) -> (r: (usize, bool, bool))
    requires
        i <= bytes@.len(),
    ensures
        (r.0 as int, r.1, r.2) == string_end(bytes@, i as int, esc),
{
    let mut pos = i;
    let mut escaping = esc;
    while pos < bytes.len()
        invariant
            pos <= bytes@.len(),
            string_end(bytes@, pos as int, escaping) == string_end(bytes@, i as int, esc),
        decreases bytes@.len() - pos,
    {
        if escaping {
            escaping = false;
            pos = pos + 1;
        } else if bytes[pos] == 92u8 {
            escaping = true;
            pos = pos + 1;
        } else if bytes[pos] == 34u8 {
            return (pos + 1, false, false);
        } else {
            pos = pos + 1;
        }
    }
    (pos, true, escaping)
}

/// The token at offset `i` (when it is not whitespace) and where the next
/// one starts; the string state moves along.
#[verifier::rlimit(40)]
fn json_step(bytes: &[u8], i: usize, state: &mut HighlightState) -> (r: (Option<TokenSpan>, usize))
    requires
        i < bytes@.len(),
    ensures
        ({
            let (spans, in_str, esc) = json_tokens(bytes@, i as int, old(state).in_string, old(state).string_escape);
            let (rest, in2, esc2) = json_tokens(bytes@, r.1 as int, final(state).in_string, final(state).string_escape);
            &&& i < r.1 <= bytes@.len()
            &&& (r.0 matches Some(t) ==> t.start < t.end)
            &&& spans == (match r.0 { Some(t) => seq![t], None => Seq::empty() }) + rest
            &&& in_str == in2
            &&& esc == esc2
        }),
        final(state).in_code_fence == old(state).in_code_fence,
        final(state).fence_marker == old(state).fence_marker,
{
    let ghost b = bytes@;
    if state.in_string {
        let start = i;
        proof {
            lemma_string_end_bounds(b, i as int, state.string_escape);
        }
        let (j, s2, e2) = scan_string(bytes, i, state.string_escape);
        state.in_string = s2;
        state.string_escape = e2;
        return (Some(TokenSpan { start, end: j, kind: TokenKind::String }), j);
    }
    let c = bytes[i];
    if c == 32u8 || c == 9u8 || c == 13u8 {
        (None, i + 1)
    } else if c == 34u8 {
        state.in_string = true;
        state.string_escape = false;
        proof {
            lemma_string_end_bounds(b, i + 1, false);
        }
        let (j, s2, e2) = scan_string(bytes, i + 1, false);
        state.in_string = s2;
        state.string_escape = e2;
        let kind = if peek_is_key(bytes, j) { TokenKind::Keyword } else { TokenKind::String };
        (Some(TokenSpan { start: i, end: j, kind }), j)
    } else if c == 123u8 || c == 125u8 || c == 91u8 || c == 93u8 || c == 58u8 || c == 44u8 {
        (Some(TokenSpan { start: i, end: i + 1, kind: TokenKind::Punctuation }), i + 1)
    } else if c == 116u8 || c == 102u8 || c == 110u8 {
        let lit_t: [u8; 4] = [116u8, 114u8, 117u8, 101u8];
        let lit_f: [u8; 5] = [102u8, 97u8, 108u8, 115u8, 101u8];
        let lit_n: [u8; 4] = [110u8, 117u8, 108u8, 108u8];
        assert(lit_t@ =~= lit_true());
        assert(lit_f@ =~= lit_false());
        assert(lit_n@ =~= lit_null());
        let m = match match_literal(bytes, i, lit_t.as_slice()) {
            Some(e) => Some(e),
            None => match match_literal(bytes, i, lit_f.as_slice()) {
                Some(e) => Some(e),
                None => match_literal(bytes, i, lit_n.as_slice()),
            },
        };
        if let Some(end) = m {
            (Some(TokenSpan { start: i, end, kind: TokenKind::Keyword }), end)
        } else {
            (Some(TokenSpan { start: i, end: i + 1, kind: TokenKind::Text }), i + 1)
        }
    } else if c == 45u8 || ascii_digit(c) {
        proof {
            lemma_number_end_bounds(b, i as int);
        }
        let e = scan_number(bytes, i);
        (Some(TokenSpan { start: i, end: e, kind: TokenKind::Number }), e)
    } else {
        (Some(TokenSpan { start: i, end: i + 1, kind: TokenKind::Text }), i + 1)
    }
}

/// `spans` and `after` are what highlighting the JSON line `line` gives,
/// from the state `before`.
pub open spec fn json_line_highlighted(line: Seq<u8>, before: HighlightState, after: HighlightState, spans: Seq<TokenSpan>) -> bool {
    let (expected, in_str, esc) = json_tokens(line, 0, before.in_string, before.string_escape);
    &&& spans == expected
    &&& after.in_string == in_str
    &&& after.string_escape == esc
    &&& after.in_code_fence == before.in_code_fence
    &&& after.fence_marker == before.fence_marker
}

fn highlight_json_line(line: &str, state: &mut HighlightState) -> (r: Vec<TokenSpan>)
    ensures
        json_line_highlighted(line.spec_bytes(), *old(state), *final(state), r@),
{
    let bytes = line.as_bytes();
    let ghost b = bytes@;
    let ghost target = json_tokens(b, 0, state.in_string, state.string_escape);
    let mut spans: Vec<TokenSpan> = Vec::new();
    let mut i: usize = 0;
    let n = bytes.len();
    while i < n
        invariant
            n == b.len(),
            b == bytes@,
            i <= n,
            spans@ + json_tokens(b, i as int, state.in_string, state.string_escape).0 == target.0,
            json_tokens(b, i as int, state.in_string, state.string_escape).1 == target.1,
            json_tokens(b, i as int, state.in_string, state.string_escape).2 == target.2,
            state.in_code_fence == old(state).in_code_fence,
            state.fence_marker == old(state).fence_marker,
        decreases n - i,
    {
        let ghost before = spans@;
        let ghost cur = json_tokens(b, i as int, state.in_string, state.string_escape);
        let (token, next) = json_step(bytes, i, state);
        if let Some(t) = token {
            push_span(&mut spans, t.start, t.end, t.kind);
        }
        i = next;
        proof {
            assert(spans@ + json_tokens(b, i as int, state.in_string, state.string_escape).0 =~= before + cur.0);
        }
    }
    proof {
        assert(spans@ + Seq::<TokenSpan>::empty() =~= spans@);
    }
    spans
}

/// A sample looks like JSON when its first byte after ASCII white space
/// opens an object or an array.
pub open spec fn json_sniffs(sample: Seq<u8>) -> bool {
    let t = sample.skip(skip_spaces(sample, 0));
    t.len() > 0 && (t[0] == 0x7bu8 || t[0] == 0x5bu8)
}

/// Whether `serde_json` parses the text as one JSON value.
pub uninterp spec fn json_parses(text: Seq<char>) -> bool;

/// What `serde_json::to_string_pretty` writes for the value that
/// `serde_json::from_str` parses from `text`.
pub uninterp spec fn json_pretty(text: Seq<char>) -> Seq<char>;

/// The message (`Display`) of the `serde_json` error met when reading
/// `text` as one JSON value and printing it.
pub uninterp spec fn json_error_text(text: Seq<char>) -> Seq<char>;

/// `serde_json::from_str` into a `serde_json::Value`, then
/// `serde_json::to_string_pretty` on that value; an error becomes its
/// message. Parsing succeeds exactly on the texts that are one JSON value.
/// serde_json documents two ways for pretty-printing to fail: a `Serialize`
/// impl that fails, or a map key that is no string; a `Value` has neither
/// (its objects are keyed by strings, and its `Serialize` impl only forwards
/// to the writer, a `Vec`, which cannot fail), so a parsed text is always
/// printed.
#[verifier::external_body]
fn parse_pretty_json(text: &str) -> (r: Result<String, String>)
    ensures
        r is Ok <==> json_parses(text@),
        r matches Ok(out) ==> out@ == json_pretty(text@),
        r matches Err(m) ==> m@ == json_error_text(text@),
{
    match serde_json::from_str::<serde_json::Value>(text) {
        Ok(value) => match serde_json::to_string_pretty(&value) {
            Ok(out) => Ok(out),
            Err(e) => Err(format!("{e}")),
        },
        Err(e) => Err(format!("{e}")),
    }
}

impl LanguageMode for JsonMode {
    fn id(&self) -> (r: LanguageId)
        ensures
            r == LanguageId::Json,
    {
        LanguageId::Json
    }

    fn display_name(&self) -> (r: &'static str)
        ensures
            r@ == "JSON"@,
    {
        "JSON"
    }

    fn extensions(&self) -> (r: &'static [&'static str])
        ensures
            r@.len() == 1,
            r@[0]@ == "json"@,
    {
        &["json"]
    }

    fn sniff(&self, sample: &[u8]) -> (r: bool)
        ensures
            r == json_sniffs(sample@),
    {
        let trimmed = trim_ascii_start(sample);
        trimmed.len() > 0 && (trimmed[0] == 0x7bu8 || trimmed[0] == 0x5bu8)
    }

    fn highlight_line(&self, line: &str, state: &mut HighlightState) -> (r: Vec<TokenSpan>)
        ensures
            json_line_highlighted(line.spec_bytes(), *old(state), *final(state), r@),
    {
        highlight_json_line(line, state)
    }

    /// Pretty-prints the document; a text that does not parse gives
    /// "Invalid JSON: " followed by serde_json's message.
    fn format(&self, text: &str) -> (r: Result<String, String>)
        ensures
            !json_parses(text@) ==> (r matches Err(m) && m@ == "Invalid JSON: "@ + json_error_text(text@)),
            json_parses(text@) ==> (r matches Ok(out) && out@ == json_pretty(text@)),
    {
        match parse_pretty_json(text) {
            Err(message) => Err(String::from_str("Invalid JSON: ").concat(message.as_str())),
            Ok(out) => Ok(out),
        }
    }
}

} // verus!

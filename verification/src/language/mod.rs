pub mod detect;
pub mod json;
pub mod markdown;
pub mod unknown;

use vstd::prelude::*;
use vstd::string::*;
use crate::language::detect::{detect_language, detected_language, path_extension_of};
use crate::language::json::{json_error_text, json_line_highlighted, json_parses, json_pretty, json_sniffs, JsonMode};
use crate::language::markdown::{formatted_markdown, md_line_highlighted, MarkdownMode};
use crate::language::unknown::{plain_spans, UnknownMode};
use crate::buffer::Document;
use crate::text::{chars_of, lossy_text, string_from_chars};

verus! {

/// The language modes an editor tab can be in.
#[derive(Debug, Clone, Copy, PartialEq, Eq, Hash, Structural)]
pub enum LanguageId {
    Unknown,
    Json,
    Markdown,
}

impl LanguageId {
    /// The name shown for the language.
    pub open spec fn display_name_spec(self) -> Seq<char> {
        match self {
            LanguageId::Unknown => "Plain Text"@,
            LanguageId::Json => "JSON"@,
            LanguageId::Markdown => "Markdown"@,
        }
    }

    /// The name shown for the language.
    pub fn display_name(self) -> (r: &'static str)
        ensures
            r@ == self.display_name_spec(),
    {
        match self {
            LanguageId::Unknown => "Plain Text",
            LanguageId::Json => "JSON",
            LanguageId::Markdown => "Markdown",
        }
    }
}

/// What a highlighted span of a line is.
#[derive(Debug, Clone, Copy, PartialEq, Eq)]
pub enum TokenKind {
    Text,
    Keyword,
    String,
    Number,
    Comment,
    Punctuation,
    Heading,
    Emphasis,
    Code,
    Link,
}

/// The bytes `start .. end` of a line, of kind `kind`.
#[derive(Debug, Clone, Copy, PartialEq, Eq)]
pub struct TokenSpan {
    pub start: usize,
    pub end: usize,
    pub kind: TokenKind,
}

/// State carried from line to line for constructs that span lines (JSON
/// strings, Markdown code fences).
#[derive(Debug, Clone)]
pub struct HighlightState {
    pub in_string: bool,
    pub string_escape: bool,
    pub in_code_fence: bool,
    pub fence_marker: String,
}

impl Default for HighlightState {
    fn default() -> (r: Self)
        ensures
            !r.in_string,
            !r.string_escape,
            !r.in_code_fence,
            r.fence_marker@ == Seq::<char>::empty(),
    {
        HighlightState { in_string: false, string_escape: false, in_code_fence: false, fence_marker: String::new() }
    }
}

/// What a language mode offers the editor: its name, the file extensions it
/// claims, a guess from the first bytes of a file, line highlighting and a
/// document formatter.
pub trait LanguageMode {
    fn id(&self) -> LanguageId;

    fn display_name(&self) -> &'static str;

    fn extensions(&self) -> &'static [&'static str];

    fn sniff(&self, sample: &[u8]) -> bool;

    fn highlight_line(&self, line: &str, state: &mut HighlightState) -> Vec<TokenSpan>;

    fn format(&self, text: &str) -> Result<String, String>;
}

/// The modes the editor ships with.
#[derive(Debug, Clone, Copy, PartialEq, Eq, Structural)]
pub enum BuiltinMode {
    Json,
    Markdown,
    Unknown,
}

/// The file extensions a language claims.
pub open spec fn extensions_of(id: LanguageId) -> Seq<Seq<char>> {
    match id {
        LanguageId::Json => seq!["json"@],
        LanguageId::Markdown => seq!["md"@, "markdown"@],
        LanguageId::Unknown => Seq::empty(),
    }
}

/// What highlighting a line in language `id` gives.
pub open spec fn line_highlighted(id: LanguageId, line: Seq<char>, before: HighlightState, after: HighlightState, spans: Seq<TokenSpan>) -> bool {
    match id {
        LanguageId::Json => json_line_highlighted(vstd::utf8::encode_utf8(line), before, after, spans),
        LanguageId::Markdown => md_line_highlighted(line, before, after, spans),
        LanguageId::Unknown => spans == plain_spans(vstd::utf8::encode_utf8(line).len()) && after == before,
    }
}

/// Spans in order within bytes `lo .. len`: each starts at or after `lo`,
/// ends no later than `len` and no earlier than it starts, and ends at or
/// before the start of the next.
pub open spec fn spans_from(spans: Seq<TokenSpan>, lo: int, len: int) -> bool {
    &&& forall|k: int| 0 <= k < spans.len() ==> lo <= #[trigger] spans[k].start <= spans[k].end <= len
    &&& forall|k: int| 0 <= k < spans.len() - 1 ==> #[trigger] spans[k].end <= spans[k + 1].start
}

/// A span `(i, e)` followed by spans in order within `e .. len` are spans
/// in order within `i .. len`.
pub proof fn lemma_spans_cons(first: TokenSpan, rest: Seq<TokenSpan>, len: int)
    requires
        first.start <= first.end,
        spans_from(rest, first.end as int, len),
        first.end <= len,
    ensures
        spans_from(seq![first] + rest, first.start as int, len),
{
    let all = seq![first] + rest;
    assert forall|k: int| 0 <= k < all.len() implies first.start <= #[trigger] all[k].start <= all[k].end <= len by {
        if k > 0 {
            assert(all[k] == rest[k - 1]);
        }
    }
    assert forall|k: int| 0 <= k < all.len() - 1 implies #[trigger] all[k].end <= all[k + 1].start by {
        if k > 0 {
            assert(all[k] == rest[k - 1]);
            assert(all[k + 1] == rest[k]);
        } else {
            assert(all[1] == rest[0]);
        }
    }
}

/// What formatting `text` in language `id` may give.
pub open spec fn format_outcome(id: LanguageId, text: Seq<char>, r: Result<String, String>) -> bool {
    match id {
        LanguageId::Json => {
            &&& !json_parses(text) ==> (r matches Err(m) && m@ == "Invalid JSON: "@ + json_error_text(text))
            &&& json_parses(text) ==> (r matches Ok(out) && out@ == json_pretty(text))
        },
        LanguageId::Markdown => r matches Ok(out) && out@ == formatted_markdown(text),
        LanguageId::Unknown => r matches Err(m) && m@ == "No formatter for Plain Text"@,
    }
}

impl BuiltinMode {
    /// The language of the mode.
    pub open spec fn language(self) -> LanguageId {
        match self {
            BuiltinMode::Json => LanguageId::Json,
            BuiltinMode::Markdown => LanguageId::Markdown,
            BuiltinMode::Unknown => LanguageId::Unknown,
        }
    }

    /// Whether the mode claims a file from its first bytes.
    pub open spec fn sniffs(self, sample: Seq<u8>) -> bool {
        self == BuiltinMode::Json && json_sniffs(sample)
    }
}

impl LanguageMode for BuiltinMode {
    fn id(&self) -> (r: LanguageId)
        ensures
            r == self.language(),
    {
        match self {
            BuiltinMode::Json => JsonMode.id(),
            BuiltinMode::Markdown => MarkdownMode.id(),
            BuiltinMode::Unknown => UnknownMode.id(),
        }
    }

    fn display_name(&self) -> (r: &'static str)
        ensures
            r@ == self.language().display_name_spec(),
    {
        match self {
            BuiltinMode::Json => JsonMode.display_name(),
            BuiltinMode::Markdown => MarkdownMode.display_name(),
            BuiltinMode::Unknown => UnknownMode.display_name(),
        }
    }

    fn extensions(&self) -> (r: &'static [&'static str])
        ensures
            r@.len() == extensions_of(self.language()).len(),
            forall|k: int| 0 <= k < r@.len() ==> (#[trigger] r@[k])@ == extensions_of(self.language())[k],
    {
        match self {
            BuiltinMode::Json => JsonMode.extensions(),
            BuiltinMode::Markdown => MarkdownMode.extensions(),
            BuiltinMode::Unknown => UnknownMode.extensions(),
        }
    }

    fn sniff(&self, sample: &[u8]) -> (r: bool)
        ensures
            r == self.sniffs(sample@),
    {
        match self {
            BuiltinMode::Json => JsonMode.sniff(sample),
            BuiltinMode::Markdown => MarkdownMode.sniff(sample),
            BuiltinMode::Unknown => UnknownMode.sniff(sample),
        }
    }

    fn highlight_line(&self, line: &str, state: &mut HighlightState) -> (r: Vec<TokenSpan>)
        ensures
            line_highlighted(self.language(), line@, *old(state), *final(state), r@),
    {
        match self {
            BuiltinMode::Json => JsonMode.highlight_line(line, state),
            BuiltinMode::Markdown => MarkdownMode.highlight_line(line, state),
            BuiltinMode::Unknown => UnknownMode.highlight_line(line, state),
        }
    }

    fn format(&self, text: &str) -> (r: Result<String, String>)
        ensures
            format_outcome(self.language(), text@, r),
    {
        match self {
            BuiltinMode::Json => JsonMode.format(text),
            BuiltinMode::Markdown => MarkdownMode.format(text),
            BuiltinMode::Unknown => UnknownMode.format(text),
        }
    }
}

/// The first mode of `modes`, from index `k` on, whose language is `id`.
pub open spec fn first_mode_for(modes: Seq<BuiltinMode>, id: LanguageId, k: int) -> Option<BuiltinMode>
    decreases modes.len() - k,
{
    if k < 0 || k >= modes.len() {
        None
    } else if modes[k].language() == id {
        Some(modes[k])
    } else {
        first_mode_for(modes, id, k + 1)
    }
}

/// The language modes the editor knows, in the order detection tries them.
pub struct LanguageRegistry {
    modes: Vec<BuiltinMode>,
}

impl LanguageRegistry {
    /// The modes, in order.
    pub closed spec fn modes(&self) -> Seq<BuiltinMode> {
        self.modes@
    }

    /// JSON, then Markdown, then plain text.
    pub fn builtin() -> (r: Self)
        ensures
            r.modes() == seq![BuiltinMode::Json, BuiltinMode::Markdown, BuiltinMode::Unknown],
    {
        let mut modes: Vec<BuiltinMode> = Vec::new();
        modes.push(BuiltinMode::Json);
        modes.push(BuiltinMode::Markdown);
        modes.push(BuiltinMode::Unknown);
        LanguageRegistry { modes }
    }

    /// The mode `get` gives for `id`.
    pub open spec fn get_spec(&self, id: LanguageId) -> BuiltinMode {
        match first_mode_for(self.modes(), id, 0) {
            Some(m) => m,
            None => BuiltinMode::Unknown,
        }
    }

    /// The mode for `id`: the first registered one, else plain text.
    pub fn get(&self, id: LanguageId) -> (r: BuiltinMode)
        ensures
            r == self.get_spec(id),
    {
        let mut k: usize = 0;
        while k < self.modes.len()
            invariant
                k <= self.modes@.len(),
                first_mode_for(self.modes@, id, k as int) == first_mode_for(self.modes@, id, 0),
            decreases self.modes@.len() - k,
        {
            let m = self.modes[k];
            if m.id() == id {
                return m;
            }
            k = k + 1;
        }
        BuiltinMode::Unknown
    }

    /// The language of a file, from its path and its first bytes.
    pub fn detect(&self, path: Option<&str>, sample: &[u8]) -> (r: LanguageId)
        ensures
            r == detected_language(path_extension_of(path), sample@, self.modes()),
    {
        detect_language(path, sample, self.modes.as_slice())
    }

    /// The languages of the registered modes, in order.
    pub fn all_ids(&self) -> (r: Vec<LanguageId>)
        ensures
            r@.len() == self.modes().len(),
            forall|k: int| 0 <= k < r@.len() ==> #[trigger] r@[k] == self.modes()[k].language(),
    {
        let mut ids: Vec<LanguageId> = Vec::new();
        let mut k: usize = 0;
        while k < self.modes.len()
            invariant
                k <= self.modes@.len(),
                ids@.len() == k,
                forall|j: int| 0 <= j < k ==> #[trigger] ids@[j] == self.modes@[j].language(),
            decreases self.modes@.len() - k,
        {
            ids.push(self.modes[k].id());
            k = k + 1;
        }
        ids
    }
}

impl Default for LanguageRegistry {
    fn default() -> (r: Self)
        ensures
            r.modes() == seq![BuiltinMode::Json, BuiltinMode::Markdown, BuiltinMode::Unknown],
    {
        Self::builtin()
    }
}

/// `s` without its trailing CR and LF characters.
pub open spec fn without_trailing_breaks(s: Seq<char>) -> Seq<char>
    decreases s.len(),
{
    if s.len() > 0 && (s.last() == '\r' || s.last() == '\n') {
        without_trailing_breaks(s.drop_last())
    } else {
        s
    }
}

/// The text of line `line` (its break included), decoded leniently, as
/// `Document::line_content` reads it.
pub open spec fn line_text(text: Seq<u8>, starts: Seq<usize>, line: int) -> Seq<char> {
    let start = if 0 <= line < starts.len() { starts[line] as int } else { 0 };
    let end = if 0 <= line + 1 < starts.len() { starts[line + 1] as int } else { text.len() as int };
    lossy_text(text.subrange(start, end))
}

/// A state as highlighting starts: outside strings and code fences.
pub open spec fn fresh_state(s: HighlightState) -> bool {
    !s.in_string && !s.string_escape && !s.in_code_fence && s.fence_marker@ == Seq::<char>::empty()
}

/// `after` is where highlighting lines `from .. to` of the text in
/// language `id` leads from `before` (each line without its line break).
pub open spec fn highlighted_through(
    id: LanguageId,
    text: Seq<u8>,
    starts: Seq<usize>,
    from: int,
    to: int,
    before: HighlightState,
    after: HighlightState,
) -> bool
    decreases to - from,
{
    if to <= from {
        after == before
    } else {
        exists|mid: HighlightState, spans: Seq<TokenSpan>|
            highlighted_through(id, text, starts, from, to - 1, before, mid) && #[trigger] line_highlighted(
                id,
                without_trailing_breaks(line_text(text, starts, to - 1)),
                mid,
                after,
                spans,
            )
    }
}

proof fn lemma_highlighted_step(
    id: LanguageId,
    text: Seq<u8>,
    starts: Seq<usize>,
    from: int,
    to: int,
    before: HighlightState,
    mid: HighlightState,
    after: HighlightState,
    spans: Seq<TokenSpan>,
)
    requires
        from <= to,
        highlighted_through(id, text, starts, from, to, before, mid),
        line_highlighted(id, without_trailing_breaks(line_text(text, starts, to)), mid, after, spans),
    ensures
        highlighted_through(id, text, starts, from, to + 1, before, after),
{
    let next = to + 1;
    assert(next - 1 == to);
    assert(highlighted_through(id, text, starts, from, next - 1, before, mid));
    assert(line_highlighted(id, without_trailing_breaks(line_text(text, starts, next - 1)), mid, after, spans));
}

/// Highlighting gives spans in order along the line: each within the
/// line's bytes, none overlapping the next.
pub proof fn lemma_highlight_spans_in_order(
    id: LanguageId,
    line: Seq<char>,
    before: HighlightState,
    after: HighlightState,
    spans: Seq<TokenSpan>,
)
    requires
        line_highlighted(id, line, before, after, spans),
        vstd::utf8::encode_utf8(line).len() <= usize::MAX,
    ensures
        spans_from(spans, 0, vstd::utf8::encode_utf8(line).len() as int),
{
    let b = vstd::utf8::encode_utf8(line);
    match id {
        LanguageId::Json => {
            crate::language::json::lemma_json_spans_in_order(b, 0, before.in_string, before.string_escape);
        },
        LanguageId::Markdown => {
            crate::language::markdown::lemma_md_spans_in_order(line, before);
        },
        LanguageId::Unknown => {},
    }
}

/// How many lines above the first visible one highlighting starts from.
pub const SEED_LINES: usize = 64;

/// The line highlighting starts from for first visible line `first_line`.
pub open spec fn seed_start(first_line: int) -> int {
    if first_line >= SEED_LINES {
        first_line - SEED_LINES
    } else {
        0
    }
}

pub(crate) fn trim_trailing_breaks(s: &str) -> (r: String)
    ensures
        r@ == without_trailing_breaks(s@),
{
    let chars = chars_of(s);
    let mut k = chars.len();
    assert(chars@.take(k as int) =~= chars@);
    while k > 0 && (chars[k - 1] == '\r' || chars[k - 1] == '\n')
        invariant
            chars@ == s@,
            k <= chars@.len(),
            without_trailing_breaks(chars@.take(k as int)) == without_trailing_breaks(s@),
        decreases k,
    {
        assert(chars@.take(k as int).drop_last() =~= chars@.take(k - 1));
        k = k - 1;
    }
    proof {
        assert(chars@.take(chars@.len() as int) =~= chars@);
    }
    let kept = vstd::slice::slice_subrange(chars.as_slice(), 0, k);
    assert(kept@ =~= chars@.take(k as int));
    string_from_chars(kept)
}

/// The highlighting state at the first visible line, approximated by
/// highlighting up to `SEED_LINES` lines above it from a fresh state.
pub fn seed_highlight_state(doc: &Document, mode: BuiltinMode, first_line: usize) -> (r: HighlightState)
    requires
        doc.wf(),
    ensures
        exists|s0: HighlightState|
            fresh_state(s0) && #[trigger] highlighted_through(
                mode.language(),
                doc.text(),
                doc.line_index().starts(),
                seed_start(first_line as int),
                first_line as int,
                s0,
                r,
            ),
{
    let mut state = HighlightState::default();
    let ghost s0 = state;
    let start = if first_line >= SEED_LINES { first_line - SEED_LINES } else { 0 };
    let ghost id = mode.language();
    let ghost text = doc.text();
    let ghost starts = doc.line_index().starts();
    let mut line = start;
    while line < first_line
        invariant
            doc.wf(),
            text == doc.text(),
            starts == doc.line_index().starts(),
            id == mode.language(),
            start <= line <= first_line,
            highlighted_through(id, text, starts, start as int, line as int, s0, state),
        decreases first_line - line,
    {
        let ghost before = state;
        match doc.line_content(line) {
            Ok(content) => {
                let trimmed = trim_trailing_breaks(content.as_str());
                let spans = mode.highlight_line(trimmed.as_str(), &mut state);
                proof {
                    assert(content@ == line_text(text, starts, line as int));
                    assert(line_highlighted(id, without_trailing_breaks(line_text(text, starts, line as int)), before, state, spans@));
                    assert(exists|mid: HighlightState, sp: Seq<TokenSpan>|
                        highlighted_through(id, text, starts, start as int, line as int, s0, mid) && #[trigger] line_highlighted(
                            id,
                            without_trailing_breaks(line_text(text, starts, line as int)),
                            mid,
                            state,
                            sp,
                        ));
                    lemma_highlighted_step(id, text, starts, start as int, line as int, s0, before, state, spans@);
                }
            },
            Err(_) => {
                proof {
                    assert(false);
                }
            },
        }
        line = line + 1;
    }
    assert(fresh_state(s0));
    assert(seed_start(first_line as int) == start);
    assert(highlighted_through(mode.language(), doc.text(), doc.line_index().starts(), seed_start(first_line as int), first_line as int, s0, state));
    state
}

/// Largest document, in bytes, that Format Document accepts.
pub const FORMAT_MAX_BYTES: usize = 5_000_000;

} // verus!

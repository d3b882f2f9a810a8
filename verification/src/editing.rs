use vstd::prelude::*;
use vstd::string::*;
use crate::buffer::document::{apply_line_ending, lemma_recorded_concat, lemma_recorded_one, recorded_edits, with_line_ending};
use crate::buffer::undo::{history_after_push, EditModel};
use crate::buffer::line_index::{cut_out, line_at, spliced_in};
use crate::buffer::{Document, LineEnding};
use crate::language::detect::{detected_language, path_extension_of};
use crate::language::{format_outcome, LanguageId, LanguageMode, LanguageRegistry, FORMAT_MAX_BYTES};
use crate::text::{char_from_u32, chars_of, is_white_space, lossy_text, string_from_chars, utf8_lossy, white_space};
use crate::view::{
    fitting, found_at, find_next, next_boundary, next_char_boundary, prev_boundary, prev_char_boundary, replace_fits, replace_next,
    replace_edits, replaced, Caret,
};

verus! {

/// The start of line `line`, or 0 for a line the index does not have.
pub open spec fn start_of_line(starts: Seq<usize>, line: int) -> int {
    if 0 <= line < starts.len() {
        starts[line] as int
    } else {
        0
    }
}

/// Where line `line` ends, line break included: the next line's start, or
/// the end of the text.
pub open spec fn end_of_line(starts: Seq<usize>, text_len: int, line: int) -> int {
    if 0 <= line + 1 < starts.len() {
        starts[line + 1] as int
    } else {
        text_len
    }
}

/// Where the content of line `line` ends: before its CR LF, LF or CR.
pub open spec fn content_end(text: Seq<u8>, starts: Seq<usize>, line: int) -> int {
    let start = start_of_line(starts, line);
    let end = end_of_line(starts, text.len() as int, line);
    if start < end && end <= text.len() {
        if end - start >= 2 && text[end - 2] == 13u8 && text[end - 1] == 10u8 {
            end - 2
        } else if text[end - 1] == 10u8 || text[end - 1] == 13u8 {
            end - 1
        } else {
            end
        }
    } else {
        end
    }
}

/// The start of line `line` (0 for a line the index does not have).
pub fn line_start_of(doc: &Document, line: usize) -> (r: usize)
    requires
        doc.wf(),
    ensures
        r == start_of_line(doc.line_index().starts(), line as int),
{
    match doc.lines().line_start(line) {
        Some(s) => s,
        None => 0,
    }
}

/// Where the text of line `line` ends, its line break left out.
pub fn line_end_content(doc: &Document, line: usize) -> (r: usize)
    requires
        doc.wf(),
    ensures
        r == content_end(doc.text(), doc.line_index().starts(), line as int),
{
    let start = line_start_of(doc, line);
    // Reading the count brings in that it fits a usize.
    let _count = doc.lines().line_count();
    let next_start = if line < usize::MAX { doc.lines().line_start(line + 1) } else { None };
    let end = match next_start {
        Some(e) => e,
        None => doc.len(),
    };
    proof {
        let starts = doc.line_index().starts();
        assert(end == end_of_line(starts, doc.text().len() as int, line as int));
        if 0 <= line + 1 < starts.len() {
            assert(starts[line + 1] <= starts.last());
        }
    }
    let mut e = end;
    if e > start {
        if let Ok(bytes) = doc.slice(start, end) {
            let n = bytes.len();
            assert(n == end - start);
            assert(bytes@[n - 1] == doc.text()[end - 1]);
            if n >= 2 {
                assert(bytes@[n - 2] == doc.text()[end - 2]);
            }
            if n >= 2 && bytes[n - 2] == 13 && bytes[n - 1] == 10 {
                e = e - 2;
            } else if bytes[n - 1] == 10 || bytes[n - 1] == 13 {
                e = e - 1;
            }
        }
    }
    e
}

/// Moves the caret to `new_offset` (at most `doc_len`); the selection
/// grows from the anchor when `extend`, else it is dropped.
pub fn move_caret(caret: &mut Caret, new_offset: usize, extend: bool, doc_len: usize)
    ensures
        final(caret).offset == (if new_offset < doc_len { new_offset } else { doc_len }),
        final(caret).anchor == (if extend { old(caret).anchor } else { final(caret).offset }),
{
    caret.offset = if new_offset < doc_len { new_offset } else { doc_len };
    if !extend {
        caret.collapse_to_offset();
    }
}

/// Where Left moves the caret: to the start of a selection being dropped,
/// else one character back.
pub fn left_target(doc: &Document, caret: Caret, extend: bool) -> (r: usize)
    requires
        doc.wf(),
    ensures
        r == (if caret.offset != caret.anchor && !extend {
            if caret.offset <= caret.anchor { caret.offset as int } else { caret.anchor as int }
        } else {
            prev_boundary(doc.text(), caret.offset as int)
        }),
{
    if caret.has_selection() && !extend {
        caret.selection_range().0
    } else {
        prev_char_boundary(doc, caret.offset)
    }
}

/// Where Right moves the caret: to the end of a selection being dropped,
/// else one character on.
pub fn right_target(doc: &Document, caret: Caret, extend: bool) -> (r: usize)
    requires
        doc.wf(),
    ensures
        r == (if caret.offset != caret.anchor && !extend {
            if caret.offset <= caret.anchor { caret.anchor as int } else { caret.offset as int }
        } else {
            next_boundary(doc.text(), caret.offset as int)
        }),
{
    if caret.has_selection() && !extend {
        caret.selection_range().1
    } else {
        next_char_boundary(doc, caret.offset)
    }
}

/// The same column (in bytes) on line `line`, kept within the line's text.
pub open spec fn column_on(text: Seq<u8>, starts: Seq<usize>, line: int, col: int) -> int {
    let s = start_of_line(starts, line);
    let e = content_end(text, starts, line);
    s + if col < e - s { col } else if e >= s { e - s } else { 0 }
}

/// Where Up moves the caret from `offset`: the same byte column on the
/// line above; nothing on the first line.
pub fn up_target(doc: &Document, offset: usize) -> (r: Option<usize>)
    requires
        doc.wf(),
    ensures
        ({
            let starts = doc.line_index().starts();
            let line = line_at(starts, offset as int);
            if line > 0 {
                r == Some(column_on(doc.text(), starts, line - 1, offset - starts[line]) as usize)
            } else {
                r is None
            }
        }),
{
    let line = doc.lines().line_of_offset(offset);
    if line == 0 {
        return None;
    }
    let col = offset - line_start_of(doc, line);
    let start = line_start_of(doc, line - 1);
    let end = line_end_content(doc, line - 1);
    let span = end.saturating_sub(start);
    proof {
        assert(start <= doc.line_index().starts()[line as int]);
        assert(end <= doc.text().len());
    }
    Some(start + if col < span { col } else { span })
}

/// Where Down moves the caret from `offset`: the same byte column on the
/// line below; nothing on the last line.
pub fn down_target(doc: &Document, offset: usize) -> (r: Option<usize>)
    requires
        doc.wf(),
    ensures
        ({
            let starts = doc.line_index().starts();
            let line = line_at(starts, offset as int);
            if line + 1 < starts.len() {
                r == Some(column_on(doc.text(), starts, line + 1, offset - starts[line]) as usize)
            } else {
                r is None
            }
        }),
{
    let line = doc.lines().line_of_offset(offset);
    let count = doc.lines().line_count();
    if line + 1 >= count {
        return None;
    }
    let col = offset - line_start_of(doc, line);
    let start = line_start_of(doc, line + 1);
    let end = line_end_content(doc, line + 1);
    let span = end.saturating_sub(start);
    proof {
        assert(end <= doc.text().len());
    }
    Some(start + if col < span { col } else { span })
}

/// Where Home moves the caret: the start of its line.
pub fn home_target(doc: &Document, offset: usize) -> (r: usize)
    requires
        doc.wf(),
    ensures
        r == start_of_line(doc.line_index().starts(), line_at(doc.line_index().starts(), offset as int)),
{
    let line = doc.lines().line_of_offset(offset);
    line_start_of(doc, line)
}

/// Where End moves the caret: the end of its line's text.
pub fn end_target(doc: &Document, offset: usize) -> (r: usize)
    requires
        doc.wf(),
    ensures
        r == content_end(doc.text(), doc.line_index().starts(), line_at(doc.line_index().starts(), offset as int)),
{
    let line = doc.lines().line_of_offset(offset);
    line_end_content(doc, line)
}

/// Where Page Up moves the caret: the start of the line `page` lines up.
pub fn page_up_target(doc: &Document, offset: usize, page: usize) -> (r: usize)
    requires
        doc.wf(),
    ensures
        ({
            let starts = doc.line_index().starts();
            let line = line_at(starts, offset as int);
            r == start_of_line(starts, if line >= page { line - page } else { 0 })
        }),
{
    let line = doc.lines().line_of_offset(offset);
    line_start_of(doc, line.saturating_sub(page))
}

/// Where Page Down moves the caret: the start of the line `page` lines
/// down, at most line `max_line`.
pub fn page_down_target(doc: &Document, offset: usize, page: usize, max_line: usize) -> (r: usize)
    requires
        doc.wf(),
    ensures
        ({
            let starts = doc.line_index().starts();
            let line = line_at(starts, offset as int);
            r == start_of_line(starts, if line + page < max_line { line + page } else { max_line as int })
        }),
{
    let line = doc.lines().line_of_offset(offset);
    let target = if page < max_line && line < max_line - page { line + page } else { max_line };
    line_start_of(doc, target)
}

/// The tab Ctrl+Tab (or Ctrl+Shift+Tab, `backward`) switches to among
/// `count` tabs.
pub fn cycle_tab(active: usize, count: usize, backward: bool) -> (r: usize)
    requires
        count > 0,
        active < usize::MAX,
    ensures
        r == (if backward {
            if active == 0 { count - 1 } else { active - 1 }
        } else {
            (active + 1) % (count as int)
        }),
{
    if backward {
        if active == 0 {
            count - 1
        } else {
            active - 1
        }
    } else {
        (active + 1) % count
    }
}

/// The active tab after tab `index` is closed, `remaining` tabs being left
/// (a fresh tab replaces the last one closed).
pub fn active_after_close(active: usize, index: usize, remaining: usize) -> (r: usize)
    ensures
        r == (if remaining == 0 {
            0
        } else if active >= remaining {
            remaining - 1
        } else if index < active {
            active - 1
        } else {
            active as int
        }),
{
    if remaining == 0 {
        0
    } else if active >= remaining {
        remaining - 1
    } else if index < active {
        active - 1
    } else {
        active
    }
}

/// `text` after the bytes `a .. b` are deleted, when they lie within it.
pub open spec fn after_delete(text: Seq<u8>, a: int, b: int) -> Seq<u8> {
    if a <= b <= text.len() {
        cut_out(text, a, b - a)
    } else {
        text
    }
}

/// `text` after `ins` is inserted at `pos`, when `pos` lies within it.
pub open spec fn after_insert(text: Seq<u8>, pos: int, ins: Seq<u8>) -> Seq<u8> {
    if pos <= text.len() {
        spliced_in(text, pos, ins)
    } else {
        text
    }
}

/// The selection of a caret: from the smaller to the larger of its two
/// ends.
pub open spec fn sel_start(c: Caret) -> int {
    if c.offset <= c.anchor { c.offset as int } else { c.anchor as int }
}

pub open spec fn sel_end(c: Caret) -> int {
    if c.offset <= c.anchor { c.anchor as int } else { c.offset as int }
}

/// The edit that deleting `a .. b` from `text` records: none when the range
/// does not lie within the text.
pub open spec fn delete_edit(text: Seq<u8>, a: int, b: int) -> Seq<EditModel> {
    if 0 <= a <= b <= text.len() {
        seq![EditModel::Delete { pos: a as usize, text: text.subrange(a, b) }]
    } else {
        Seq::empty()
    }
}

/// The edit that inserting `ins` at `pos` of `text` records: none when
/// `pos` lies past the text.
pub open spec fn insert_edit(text: Seq<u8>, pos: int, ins: Seq<u8>) -> Seq<EditModel> {
    if 0 <= pos <= text.len() {
        seq![EditModel::Insert { pos: pos as usize, text: ins }]
    } else {
        Seq::empty()
    }
}

/// The edits a Backspace (`backward`) or Delete with caret `c` records in
/// `text`.
pub open spec fn deletion_edits(text: Seq<u8>, c: Caret, backward: bool) -> Seq<EditModel> {
    if c.offset != c.anchor {
        delete_edit(text, sel_start(c), sel_end(c))
    } else if backward {
        if c.offset > 0 {
            delete_edit(text, prev_boundary(text, c.offset as int), c.offset as int)
        } else {
            Seq::empty()
        }
    } else if c.offset < text.len() {
        delete_edit(text, c.offset as int, next_boundary(text, c.offset as int))
    } else {
        Seq::empty()
    }
}

/// Deleting `a .. b` through `Document::delete` records `delete_edit`.
proof fn lemma_delete_recorded(d0: Document, d1: Document, a: usize, b: usize)
    requires
        d0.wf(),
        (a > b || b > d0.text().len()) ==> d1 == d0,
        (a <= b && b <= d0.text().len()) ==> {
            &&& d1.undo_list() == history_after_push(
                d0.undo_list(),
                EditModel::Delete { pos: a, text: d0.text().subrange(a as int, b as int) },
                d0.history_limit(),
            )
            &&& d1.redo_list() == Seq::<EditModel>::empty()
            &&& d1.dirty_flag()
            &&& d1.has_path() == d0.has_path()
            &&& d1.ending() == d0.ending()
            &&& d1.history_limit() == d0.history_limit()
        },
    ensures
        recorded_edits(d0, d1, delete_edit(d0.text(), a as int, b as int)),
{
    if a <= b && b <= d0.text().len() {
        lemma_recorded_one(d0, d1, EditModel::Delete { pos: a, text: d0.text().subrange(a as int, b as int) });
    }
}

/// Types `text` at the caret: a selection is deleted first, the text goes
/// in where the caret is, and the caret ends up after it.
pub fn insert_text(doc: &mut Document, caret: &mut Caret, text: &str)
    requires
        old(doc).wf(),
        old(doc).text().len() + text.spec_bytes().len() <= usize::MAX,
        old(caret).offset + text.spec_bytes().len() <= usize::MAX,
        old(caret).anchor + text.spec_bytes().len() <= usize::MAX,
    ensures
        final(doc).wf(),
        ({
            let c = *old(caret);
            let selected = c.offset != c.anchor;
            let t1 = if selected { after_delete(old(doc).text(), sel_start(c), sel_end(c)) } else { old(doc).text() };
            let pos = if selected { sel_start(c) } else { c.offset as int };
            &&& final(doc).text() == after_insert(t1, pos, text.spec_bytes())
            &&& final(caret).offset == pos + text.spec_bytes().len()
            &&& final(caret).anchor == final(caret).offset
            &&& recorded_edits(
                *old(doc),
                *final(doc),
                (if selected { delete_edit(old(doc).text(), sel_start(c), sel_end(c)) } else { Seq::empty() })
                    + insert_edit(t1, pos, text.spec_bytes()),
            )
        }),
{
    let ghost d0 = *doc;
    let ghost first: Seq<EditModel> = Seq::empty();
    if caret.has_selection() {
        let (a, b) = caret.selection_range();
        let _ = doc.delete(a, b);
        proof {
            lemma_delete_recorded(d0, *doc, a, b);
            first = delete_edit(d0.text(), a as int, b as int);
        }
        caret.offset = a;
        caret.collapse_to_offset();
    }
    let ghost d1 = *doc;
    let pos = caret.offset;
    let _ = doc.insert(pos, text);
    proof {
        if pos <= d1.text().len() {
            lemma_recorded_one(d1, *doc, EditModel::Insert { pos, text: text.spec_bytes() });
        }
        lemma_recorded_concat(d0, d1, *doc, first, insert_edit(d1.text(), pos as int, text.spec_bytes()));
    }
    caret.offset = pos + text.as_bytes().len();
    caret.collapse_to_offset();
}

/// Backspace (`backward`) or Delete: takes out the selection, else the
/// character before or after the caret.
pub fn delete_selection_or_char(doc: &mut Document, caret: &mut Caret, backward: bool)
    requires
        old(doc).wf(),
    ensures
        final(doc).wf(),
        ({
            let c = *old(caret);
            let text = old(doc).text();
            if c.offset != c.anchor {
                &&& final(doc).text() == after_delete(text, sel_start(c), sel_end(c))
                &&& final(caret).offset == sel_start(c)
                &&& final(caret).anchor == sel_start(c)
            } else if backward {
                if c.offset > 0 {
                    let start = prev_boundary(text, c.offset as int);
                    &&& final(doc).text() == after_delete(text, start, c.offset as int)
                    &&& final(caret).offset == start
                    &&& final(caret).anchor == start
                } else {
                    final(doc).text() == text && *final(caret) == c
                }
            } else if c.offset < text.len() {
                &&& final(doc).text() == after_delete(text, c.offset as int, next_boundary(text, c.offset as int))
                &&& *final(caret) == c
            } else {
                final(doc).text() == text && *final(caret) == c
            }
        }),
        recorded_edits(*old(doc), *final(doc), deletion_edits(old(doc).text(), *old(caret), backward)),
{
    let ghost d0 = *doc;
    if caret.has_selection() {
        let (a, b) = caret.selection_range();
        let _ = doc.delete(a, b);
        proof {
            lemma_delete_recorded(d0, *doc, a, b);
        }
        caret.offset = a;
        caret.collapse_to_offset();
    } else if backward {
        if caret.offset > 0 {
            let end = caret.offset;
            let start = prev_char_boundary(doc, end);
            let _ = doc.delete(start, end);
            proof {
                lemma_delete_recorded(d0, *doc, start, end);
            }
            caret.offset = start;
            caret.collapse_to_offset();
        }
    } else if caret.offset < doc.len() {
        let start = caret.offset;
        let end = next_char_boundary(doc, start);
        let _ = doc.delete(start, end);
        proof {
            lemma_delete_recorded(d0, *doc, start, end);
        }
    }
}

/// The selected text, decoded leniently; nothing without a selection.
pub fn selected_text(doc: &Document, caret: Caret) -> (r: Option<String>)
    requires
        doc.wf(),
    ensures
        caret.offset != caret.anchor && sel_end(caret) <= doc.text().len() ==> (r matches Some(s) && s@ == lossy_text(
            doc.text().subrange(sel_start(caret), sel_end(caret)),
        )),
        !(caret.offset != caret.anchor && sel_end(caret) <= doc.text().len()) ==> r is None,
{
    if !caret.has_selection() {
        return None;
    }
    let (a, b) = caret.selection_range();
    match doc.slice(a, b) {
        Ok(bytes) => Some(utf8_lossy(bytes.as_slice())),
        Err(_) => None,
    }
}

/// Cut: takes out the selection (when there is one) and leaves the caret
/// at its start; tells whether there was a selection.
pub fn delete_selection(doc: &mut Document, caret: &mut Caret) -> (r: bool)
    requires
        old(doc).wf(),
    ensures
        final(doc).wf(),
        r == (old(caret).offset != old(caret).anchor),
        r ==> {
            &&& final(doc).text() == after_delete(old(doc).text(), sel_start(*old(caret)), sel_end(*old(caret)))
            &&& final(caret).offset == sel_start(*old(caret))
            &&& final(caret).anchor == sel_start(*old(caret))
            &&& recorded_edits(
                *old(doc),
                *final(doc),
                delete_edit(old(doc).text(), sel_start(*old(caret)), sel_end(*old(caret))),
            )
        },
        !r ==> *final(doc) == *old(doc) && *final(caret) == *old(caret),
{
    if !caret.has_selection() {
        return false;
    }
    let ghost d0 = *doc;
    let (a, b) = caret.selection_range();
    let _ = doc.delete(a, b);
    proof {
        lemma_delete_recorded(d0, *doc, a, b);
    }
    caret.offset = a;
    caret.collapse_to_offset();
    true
}

/// Find Next from the caret (from the end of a selection), wrapping round
/// to the start of the document when nothing follows.
pub fn find_from_caret(doc: &Document, query: &str, caret: Caret, case_sensitive: bool) -> (r: Option<(usize, usize)>)
    requires
        doc.wf(),
    ensures
        ({
            let start = if caret.offset != caret.anchor { sel_end(caret) } else { caret.offset as int };
            let ahead = fitting(found_at(doc.text(), query@, start, case_sensitive));
            r == if ahead is Some { ahead } else { fitting(found_at(doc.text(), query@, 0, case_sensitive)) }
        }),
{
    let start = if caret.has_selection() {
        caret.selection_range().1
    } else {
        caret.offset
    };
    match find_next(doc, query, start, case_sensitive) {
        Some(found) => Some(found),
        None => find_next(doc, query, 0, case_sensitive),
    }
}

/// Replace: replaces the next match from the start of the selection and
/// selects the inserted text; tells whether a match was replaced.
pub fn replace_at_caret(doc: &mut Document, caret: &mut Caret, query: &str, replacement: &str, case_sensitive: bool) -> (r: bool)
    requires
        old(doc).wf(),
    ensures
        final(doc).wf(),
        ({
            let text = old(doc).text();
            let repl = replacement.spec_bytes();
            match fitting(found_at(text, query@, sel_start(*old(caret)), case_sensitive)) {
                Some((a, b)) => if replace_fits(text, a as int, b as int, repl) {
                    &&& r
                    &&& final(doc).text() == replaced(text, a as int, b as int, repl)
                    &&& recorded_edits(*old(doc), *final(doc), replace_edits(text, a as int, b as int, repl))
                    &&& final(caret).anchor == a
                    &&& final(caret).offset == a + repl.len()
                } else {
                    !r && *final(doc) == *old(doc) && *final(caret) == *old(caret)
                },
                None => !r && *final(doc) == *old(doc) && *final(caret) == *old(caret),
            }
        }),
{
    let from = caret.selection_range().0;
    match replace_next(doc, query, replacement, from, case_sensitive) {
        Some((a, b)) => {
            caret.anchor = a;
            caret.offset = b;
            true
        },
        None => false,
    }
}

/// What Format Document did.
#[derive(Debug, Clone, PartialEq, Eq)]
pub enum FormatOutcome {
    /// The language has no formatter.
    NoFormatter,
    /// The document is larger than `FORMAT_MAX_BYTES`; its length.
    TooLarge(usize),
    /// The formatter refused the text, with its message.
    Failed(String),
    /// The formatted text is the text itself.
    Unchanged,
    /// The document now holds the formatted text.
    Replaced,
}

/// Format Document: formats the text (decoded leniently) in `language`,
/// writes the result's line breaks in the document's line ending, and
/// replaces the document's text when it changed.
pub fn format_document(doc: &mut Document, language: LanguageId, registry: &LanguageRegistry) -> (r: FormatOutcome)
    requires
        old(doc).wf(),
    ensures
        final(doc).wf(),
        language == LanguageId::Unknown ==> r == FormatOutcome::NoFormatter,
        language != LanguageId::Unknown && old(doc).text().len() > FORMAT_MAX_BYTES ==> r == FormatOutcome::TooLarge(
            old(doc).text().len() as usize,
        ),
        !(r is Replaced) ==> *final(doc) == *old(doc),
        r is Replaced ==> recorded_edits(
            *old(doc),
            *final(doc),
            replace_edits(old(doc).text(), 0, old(doc).text().len() as int, final(doc).text()),
        ),
        ({
            let text = lossy_text(old(doc).text());
            let id = registry.get_spec(language).language();
            &&& r matches FormatOutcome::Failed(m) ==> format_outcome(id, text, Err(m))
            &&& r is Unchanged ==> exists|out: String| #[trigger] format_outcome(id, text, Ok(out)) && with_line_ending(out@, old(doc).ending()) == text
            &&& r is Replaced ==> exists|out: String| #[trigger] format_outcome(id, text, Ok(out)) && final(doc).text() == vstd::utf8::encode_utf8(with_line_ending(out@, old(doc).ending())) && with_line_ending(out@, old(doc).ending()) != text
        }),
        language != LanguageId::Unknown && old(doc).text().len() <= FORMAT_MAX_BYTES ==> (r is Failed || r is Unchanged || r is Replaced),
{
    if language == LanguageId::Unknown {
        return FormatOutcome::NoFormatter;
    }
    let len = doc.len();
    if len > FORMAT_MAX_BYTES {
        return FormatOutcome::TooLarge(len);
    }
    let bytes = match doc.slice(0, len) {
        Ok(b) => b,
        Err(_) => return FormatOutcome::Unchanged,
    };
    assert(bytes@ =~= doc.text());
    let text = utf8_lossy(bytes.as_slice());
    let mode = registry.get(language);
    let out = match mode.format(text.as_str()) {
        Ok(out) => out,
        Err(message) => return FormatOutcome::Failed(message),
    };
    let formatted = apply_line_ending(out.as_str(), doc.line_ending());
    if formatted == text {
        return FormatOutcome::Unchanged;
    }
    let ghost d0 = *doc;
    let _ = doc.delete(0, len);
    let ghost d1 = *doc;
    proof {
        lemma_delete_recorded(d0, d1, 0, len);
    }
    // Reading the byte length brings in that it fits a usize.
    let _flen = formatted.as_str().as_bytes().len();
    assert(doc.text() =~= Seq::<u8>::empty());
    let fs = formatted.as_str();
    let _ = doc.insert(0, fs);
    proof {
        let e2 = EditModel::Insert { pos: 0, text: fs.spec_bytes() };
        lemma_recorded_one(d1, *doc, e2);
        lemma_recorded_concat(d0, d1, *doc, delete_edit(d0.text(), 0, len as int), seq![e2]);
        assert(doc.text() =~= fs.spec_bytes());
        assert(d0.text().subrange(0, len as int) =~= d0.text());
        assert(delete_edit(d0.text(), 0, len as int) + seq![e2] =~= replace_edits(d0.text(), 0, len as int, doc.text()));
    }
    FormatOutcome::Replaced
}

/// The number of leading bytes of a document that language detection
/// looks at.
pub const DETECT_SAMPLE_BYTES: usize = 4096;

/// The first bytes of a document that language detection looks at.
pub open spec fn detect_sample(text: Seq<u8>) -> Seq<u8> {
    if text.len() < DETECT_SAMPLE_BYTES {
        text
    } else {
        text.take(DETECT_SAMPLE_BYTES as int)
    }
}

/// The language of a document opened from `path`, from the path's
/// extension and the document's first bytes.
pub fn detect_language_for(doc: &Document, path: Option<&str>, registry: &LanguageRegistry) -> (r: LanguageId)
    requires
        doc.wf(),
    ensures
        r == detected_language(path_extension_of(path), detect_sample(doc.text()), registry.modes()),
{
    let len = doc.len();
    let n = if len < DETECT_SAMPLE_BYTES { len } else { DETECT_SAMPLE_BYTES };
    let sample = match doc.slice(0, n) {
        Ok(b) => b,
        Err(_) => Vec::new(),
    };
    assert(sample@ =~= doc.text().take(n as int));
    assert(sample@ =~= detect_sample(doc.text()));
    registry.detect(path, sample.as_slice())
}

/// The language of a document once it is saved to, or reloaded from, the
/// file written `path`: the one the user chose when it is locked, else the
/// one detected from the path and the document.
pub fn language_after_path_change(
    doc: &Document,
    path: &str,
    language: LanguageId,
    locked: bool,
    registry: &LanguageRegistry,
) -> (r: LanguageId)
    requires
        doc.wf(),
    ensures
        r == if locked {
            language
        } else {
            detected_language(path_extension_of(Some(path)), detect_sample(doc.text()), registry.modes())
        },
{
    if locked {
        language
    } else {
        detect_language_for(doc, Some(path), registry)
    }
}


/// The characters of `s` left once white space is taken off both ends.
pub open spec fn trimmed_chars(s: Seq<char>) -> Seq<char>
    decreases s.len(),
{
    if s.len() > 0 && is_white_space(s[0]) {
        trimmed_chars(s.drop_first())
    } else if s.len() > 0 && is_white_space(s.last()) {
        trimmed_chars(s.drop_last())
    } else {
        s
    }
}

pub open spec fn is_decimal_digit(c: char) -> bool {
    '0' <= c <= '9'
}

/// The number the decimal digits `d` write.
pub open spec fn digits_value(d: Seq<char>) -> int
    decreases d.len(),
{
    if d.len() == 0 {
        0
    } else {
        digits_value(d.drop_last()) * 10 + (d.last() as int - '0' as int)
    }
}

/// The `usize` that the decimal digits `d` write: none for an empty or
/// non-decimal text, or a number past `usize::MAX`.
pub open spec fn digits_number(d: Seq<char>) -> Option<usize> {
    if d.len() > 0 && (forall|i: int| 0 <= i < d.len() ==> is_decimal_digit(#[trigger] d[i])) && digits_value(d)
        <= usize::MAX {
        Some(digits_value(d) as usize)
    } else {
        None
    }
}

/// The `usize` that `t` writes in decimal, after an optional `+`.
pub open spec fn decimal_usize(t: Seq<char>) -> Option<usize> {
    digits_number(
        if t.len() > 0 && t[0] == '+' {
            t.drop_first()
        } else {
            t
        },
    )
}

proof fn lemma_digits_grow(d: Seq<char>, j: int)
    requires
        0 <= j <= d.len(),
        forall|i: int| 0 <= i < d.len() ==> is_decimal_digit(#[trigger] d[i]),
    ensures
        0 <= digits_value(d.take(j)) <= digits_value(d),
    decreases d.len() - j,
{
    if j < d.len() {
        lemma_digits_grow(d, j + 1);
        assert(d.take(j + 1).drop_last() =~= d.take(j));
        assert(is_decimal_digit(d[j]));
    } else {
        assert(d.take(j) =~= d);
        lemma_digits_nonneg(d);
    }
}

proof fn lemma_digits_nonneg(d: Seq<char>)
    requires
        forall|i: int| 0 <= i < d.len() ==> is_decimal_digit(#[trigger] d[i]),
    ensures
        digits_value(d) >= 0,
    decreases d.len(),
{
    if d.len() > 0 {
        assert(is_decimal_digit(d[d.len() - 1]));
        lemma_digits_nonneg(d.drop_last());
    }
}

/// The bounds of `chars` once white space is taken off both ends.
fn trim_range(chars: &Vec<char>) -> (r: (usize, usize))
    ensures
        r.0 <= r.1 <= chars@.len(),
        chars@.subrange(r.0 as int, r.1 as int) == trimmed_chars(chars@),
{
    let ghost s = chars@;
    let mut a: usize = 0;
    let mut b: usize = chars.len();
    assert(s.subrange(0, s.len() as int) =~= s);
    while a < b && (white_space(chars[a]) || white_space(chars[b - 1]))
        invariant
            s == chars@,
            a <= b <= s.len(),
            trimmed_chars(s.subrange(a as int, b as int)) == trimmed_chars(s),
        decreases b - a,
    {
        let ghost t = s.subrange(a as int, b as int);
        if white_space(chars[a]) {
            assert(t.drop_first() =~= s.subrange(a + 1, b as int));
            a = a + 1;
        } else {
            assert(t.drop_last() =~= s.subrange(a as int, b - 1));
            b = b - 1;
        }
    }
    (a, b)
}

/// The `usize` that `chars[from .. to]` writes in decimal.
fn parse_digits(chars: &Vec<char>, from: usize, to: usize) -> (r: Option<usize>)
    requires
        from <= to <= chars@.len(),
    ensures
        r == digits_number(chars@.subrange(from as int, to as int)),
{
    let ghost d = chars@.subrange(from as int, to as int);
    if from >= to {
        return None;
    }
    let mut value: usize = 0;
    let mut j = from;
    while j < to
        invariant
            from <= j <= to <= chars@.len(),
            d == chars@.subrange(from as int, to as int),
            forall|k: int| 0 <= k < j - from ==> is_decimal_digit(#[trigger] d[k]),
            value == digits_value(d.take(j - from)),
        decreases to - j,
    {
        let c = chars[j];
        assert(d[j - from] == c);
        if !('0' <= c && c <= '9') {
            assert(!is_decimal_digit(d[j - from]));
            return None;
        }
        let digit: usize = (c as u32 - '0' as u32) as usize;
        assert(d.take(j - from + 1).drop_last() =~= d.take(j - from));
        assert(d.take(j - from + 1).last() == c);
        let next = match value.checked_mul(10) {
            Some(v) => v.checked_add(digit),
            None => None,
        };
        match next {
            Some(v) => {
                value = v;
            },
            None => {
                proof {
                    assert(digits_value(d.take(j - from + 1)) > usize::MAX);
                    let all_digits = forall|k: int| 0 <= k < d.len() ==> is_decimal_digit(#[trigger] d[k]);
                    if all_digits {
                        lemma_digits_grow(d, j - from + 1);
                    }
                }
                return None;
            },
        }
        j = j + 1;
    }
    proof {
        assert(d.take(d.len() as int) =~= d);
    }
    Some(value)
}

/// The line number typed into `text`: a decimal number with white space
/// around it, as `str::trim` and `usize::from_str` read it.
pub fn parse_line_number(text: &str) -> (r: Option<usize>)
    ensures
        r == decimal_usize(trimmed_chars(text@)),
{
    let chars = chars_of(text);
    let (a, b) = trim_range(&chars);
    let ghost t = chars@.subrange(a as int, b as int);
    let mut i = a;
    if i < b && chars[i] == '+' {
        i = i + 1;
    }
    proof {
        if a < b && chars@[a as int] == '+' {
            assert(t.drop_first() =~= chars@.subrange(i as int, b as int));
        } else {
            assert(t =~= chars@.subrange(i as int, b as int));
        }
    }
    parse_digits(&chars, i, b)
}


/// A control character (general category Cc): U+0000 to U+001F and U+007F
/// to U+009F.
pub open spec fn is_control_scalar(v: u32) -> bool {
    v <= 0x1F || (0x7F <= v <= 0x9F)
}

/// Whether a typed character code `ch` enters text: Enter, Tab, and any
/// Unicode scalar value that is no control character.
pub open spec fn enters_text(ch: u32) -> bool {
    ch == 13 || ch == 9 || (ch <= 0x10FFFF && !(0xD800 <= ch <= 0xDFFF) && !is_control_scalar(ch))
}

/// The text that typing the character code `ch` inserts: the document's
/// line break for Enter (CR LF in a CR LF document, else LF), the character
/// itself for any other code that enters text, nothing for the rest.
pub fn typed_text(ch: u32, ending: LineEnding) -> (r: Option<String>)
    ensures
        r is Some <==> enters_text(ch),
        r matches Some(t) ==> {
            if ch == 13 {
                t@ == if ending == LineEnding::CrLf {
                    seq!['\r', '\n']
                } else {
                    seq!['\n']
                }
            } else {
                t@.len() == 1 && t@[0] as u32 == ch
            }
        },
{
    if ch < 32 && ch != 9 && ch != 13 {
        return None;
    }
    if ch == 13 {
        let mut chars: Vec<char> = Vec::new();
        match ending {
            LineEnding::CrLf => {
                chars.push('\r');
                chars.push('\n');
            },
            _ => {
                chars.push('\n');
            },
        }
        proof {
            if ending == LineEnding::CrLf {
                assert(chars@ =~= seq!['\r', '\n']);
            } else {
                assert(chars@ =~= seq!['\n']);
            }
        }
        return Some(string_from_chars(chars.as_slice()));
    }
    match char_from_u32(ch) {
        Some(c) => {
            let v = c as u32;
            if !(v <= 0x1F || (0x7F <= v && v <= 0x9F)) || v == 9 {
                let mut chars: Vec<char> = Vec::new();
                chars.push(c);
                Some(string_from_chars(chars.as_slice()))
            } else {
                None
            }
        },
        None => None,
    }
}

} // verus!

use std::path::{Path, PathBuf};
use vstd::prelude::*;
use vstd::string::*;
use crate::buffer::line_index::{cut_out, spliced_in, LineIndex};
use crate::buffer::piece_table::{PieceTable, ReadError};
use crate::buffer::line_index::{delete_moves_starts, insert_moves_starts, has, indexes_lines, lemma_delete_keeps_index, lemma_insert_keeps_index};
use crate::buffer::undo::{history_after_push, history_after_pushes, lemma_push_is_latest, lemma_pushes_concat, EditAction, EditModel, UndoStack};
use crate::text::{chars_of, is_utf8, lossy_text, string_from_chars, utf8_lossy};

verus! {

#[verifier::external_type_specification]
#[verifier::external_body]
pub struct ExPathBuf(PathBuf);

#[verifier::external_type_specification]
#[verifier::external_body]
pub struct ExPath(Path);

/// `PathBuf::as_path`.
#[verifier::external_body]
fn path_buf_as_path(p: &PathBuf) -> &Path {
    p.as_path()
}

/// How the lines of a text end.
#[derive(Debug, Clone, Copy, PartialEq, Eq)]
pub enum LineEnding {
    Lf,
    CrLf,
    Mixed,
}

/// A carriage return at `j` is directly followed by a line feed.
pub open spec fn crlf_at(bytes: Seq<u8>, j: int) -> bool {
    0 <= j && j + 1 < bytes.len() && bytes[j] == 13u8 && bytes[j + 1] == 10u8
}

/// A line feed at `j` is not directly preceded by a carriage return.
pub open spec fn bare_lf_at(bytes: Seq<u8>, j: int) -> bool {
    0 <= j < bytes.len() && bytes[j] == 10u8 && (j == 0 || bytes[j - 1] != 13u8)
}

pub open spec fn has_crlf(bytes: Seq<u8>) -> bool {
    exists|j: int| #[trigger] crlf_at(bytes, j)
}

pub open spec fn has_bare_lf(bytes: Seq<u8>) -> bool {
    exists|j: int| #[trigger] bare_lf_at(bytes, j)
}

/// The line ending that `LineEnding::detect` reports for `bytes`.
pub open spec fn detected_ending(bytes: Seq<u8>) -> LineEnding {
    if has_crlf(bytes) && !has_bare_lf(bytes) {
        LineEnding::CrLf
    } else if has_crlf(bytes) && has_bare_lf(bytes) {
        LineEnding::Mixed
    } else {
        LineEnding::Lf
    }
}

impl LineEnding {
    pub fn detect(bytes: &[u8]) -> (r: Self)
        ensures
            r == detected_ending(bytes@),
    {
        let mut saw_lf = false;
        let mut saw_crlf = false;
        let n = bytes.len();
        let mut i: usize = 0;
        while i < n
            invariant
                n == bytes@.len(),
                i <= n + 1,
                i <= n,
                i > 0 && i < n ==> !(bytes@[i - 1] == 13u8 && bytes@[i as int] == 10u8),
                saw_crlf <==> exists|j: int| j + 1 < i && #[trigger] crlf_at(bytes@, j),
                saw_lf <==> exists|j: int| j < i && #[trigger] bare_lf_at(bytes@, j),
            decreases n - i,
        {
            if bytes[i] == 13u8 && i + 1 < n && bytes[i + 1] == 10u8 {
                saw_crlf = true;
                assert(crlf_at(bytes@, i as int));
                proof {
                    if i + 2 < n {
                        assert(!(bytes@[i + 1] == 13u8));
                    }
                }
                i = i + 2;
            } else if bytes[i] == 10u8 {
                saw_lf = true;
                assert(bare_lf_at(bytes@, i as int));
                i = i + 1;
            } else {
                i = i + 1;
            }
        }
        proof {
            assert(i == n);
        }
        if saw_crlf && !saw_lf {
            LineEnding::CrLf
        } else if !saw_crlf && saw_lf {
            LineEnding::Lf
        } else if saw_crlf && saw_lf {
            LineEnding::Mixed
        } else {
            LineEnding::Lf
        }
    }

    /// The bytes a new line is written with: CR LF for `CrLf`, LF otherwise.
    pub fn as_bytes(self) -> (r: &'static [u8])
        ensures
            self == LineEnding::CrLf ==> r@ == seq![13u8, 10u8],
            self != LineEnding::CrLf ==> r@ == seq![10u8],
    {
        match self {
            LineEnding::Lf | LineEnding::Mixed => {
                let r: &'static [u8] = &[10u8];
                assert(r@ =~= seq![10u8]);
                r
            },
            LineEnding::CrLf => {
                let r: &'static [u8] = &[13u8, 10u8];
                assert(r@ =~= seq![13u8, 10u8]);
                r
            },
        }
    }
}

/// `s` with each line break (CR LF, a lone CR, LF) made a single line feed.
pub open spec fn lf_normalized(s: Seq<char>) -> Seq<char>
    decreases s.len(),
{
    if s.len() == 0 {
        Seq::empty()
    } else if s[0] == '\r' && s.len() >= 2 && s[1] == '\n' {
        seq!['\n'] + lf_normalized(s.skip(2))
    } else if s[0] == '\r' {
        seq!['\n'] + lf_normalized(s.skip(1))
    } else {
        seq![s[0]] + lf_normalized(s.skip(1))
    }
}

/// `s` with each line feed written as CR LF.
pub open spec fn lf_as_crlf(s: Seq<char>) -> Seq<char>
    decreases s.len(),
{
    if s.len() == 0 {
        Seq::empty()
    } else if s[0] == '\n' {
        seq!['\r', '\n'] + lf_as_crlf(s.skip(1))
    } else {
        seq![s[0]] + lf_as_crlf(s.skip(1))
    }
}

/// `text` with its line breaks written as `ending` writes them (`Mixed`
/// writes line feeds).
pub open spec fn with_line_ending(text: Seq<char>, ending: LineEnding) -> Seq<char> {
    match ending {
        LineEnding::CrLf => lf_as_crlf(lf_normalized(text)),
        _ => lf_normalized(text),
    }
}

/// Rewrites the line breaks of `text` (pasted or inserted text) in the
/// document's line ending.
pub fn apply_line_ending(text: &str, ending: LineEnding) -> (r: String)
    ensures
        r@ == with_line_ending(text@, ending),
{
    let chars = chars_of(text);
    let ghost s = chars@;
    let n = chars.len();
    let mut norm: Vec<char> = Vec::new();
    let mut i: usize = 0;
    assert(s.skip(0) =~= s);
    assert(norm@ + lf_normalized(s) =~= lf_normalized(s));
    while i < n
        invariant
            s == chars@,
            n == s.len(),
            i <= n,
            norm@ + lf_normalized(s.skip(i as int)) == lf_normalized(s),
        decreases n - i,
    {
        let ghost before = norm@;
        let ghost rest = s.skip(i as int);
        if chars[i] == '\r' && i + 1 < n && chars[i + 1] == '\n' {
            norm.push('\n');
            assert(rest.skip(2) =~= s.skip(i + 2));
            i = i + 2;
        } else if chars[i] == '\r' {
            norm.push('\n');
            assert(rest.skip(1) =~= s.skip(i + 1));
            i = i + 1;
        } else {
            norm.push(chars[i]);
            assert(rest.skip(1) =~= s.skip(i + 1));
            i = i + 1;
        }
        assert(norm@ + lf_normalized(s.skip(i as int)) =~= before + lf_normalized(rest));
    }
    assert(norm@ + lf_normalized(s.skip(n as int)) =~= norm@);
    match ending {
        LineEnding::CrLf => {},
        _ => {
            return string_from_chars(norm.as_slice());
        },
    }
    let ghost t = norm@;
    let m = norm.len();
    let mut out: Vec<char> = Vec::new();
    let mut k: usize = 0;
    assert(t.skip(0) =~= t);
    assert(out@ + lf_as_crlf(t) =~= lf_as_crlf(t));
    while k < m
        invariant
            t == norm@,
            m == t.len(),
            k <= m,
            out@ + lf_as_crlf(t.skip(k as int)) == lf_as_crlf(t),
        decreases m - k,
    {
        let ghost before = out@;
        let ghost rest = t.skip(k as int);
        if norm[k] == '\n' {
            out.push('\r');
            out.push('\n');
        } else {
            out.push(norm[k]);
        }
        assert(rest.skip(1) =~= t.skip(k + 1));
        k = k + 1;
        assert(out@ + lf_as_crlf(t.skip(k as int)) =~= before + lf_as_crlf(rest));
    }
    assert(out@ + lf_as_crlf(t.skip(m as int)) =~= out@);
    string_from_chars(out.as_slice())
}

/// The text an edit leaves behind when it is applied to `text`.
pub open spec fn edit_result(e: EditModel, text: Seq<u8>) -> Seq<u8> {
    match e {
        EditModel::Insert { pos, text: t } => spliced_in(text, pos as int, t),
        EditModel::Delete { pos, text: t } => cut_out(text, pos as int, t.len() as int),
    }
}

/// The offsets an edit touches stay within `usize`.
pub open spec fn edit_in_range(e: EditModel) -> bool {
    match e {
        EditModel::Insert { pos, text } => pos + text.len() <= usize::MAX,
        EditModel::Delete { pos, text } => pos + text.len() <= usize::MAX,
    }
}

/// Whether undoing `e` on `text` succeeds: the inserted bytes must lie
/// within the text, and re-inserted bytes must fit and be well-formed UTF-8.
pub open spec fn undo_succeeds(e: EditModel, text: Seq<u8>) -> bool {
    match e {
        EditModel::Insert { pos, text: t } => pos + t.len() <= text.len(),
        EditModel::Delete { pos, text: t } => pos <= text.len() && (t.len() == 0 || is_utf8(t)),
    }
}

/// The text after undoing `e`.
pub open spec fn undone(e: EditModel, text: Seq<u8>) -> Seq<u8> {
    match e {
        EditModel::Insert { pos, text: t } => cut_out(text, pos as int, t.len() as int),
        EditModel::Delete { pos, text: t } => spliced_in(text, pos as int, t),
    }
}

/// The error an undo of `e` on `text` fails with.
pub open spec fn undo_error(e: EditModel, text: Seq<u8>) -> ReadError {
    match e {
        EditModel::Insert { .. } => ReadError::OutOfBounds,
        EditModel::Delete { pos, .. } => if pos > text.len() {
            ReadError::OutOfBounds
        } else {
            ReadError::InvalidUtf8
        },
    }
}

/// Whether redoing `e` on `text` succeeds.
pub open spec fn redo_succeeds(e: EditModel, text: Seq<u8>) -> bool {
    match e {
        EditModel::Insert { pos, text: t } => pos <= text.len() && (t.len() == 0 || is_utf8(t)),
        EditModel::Delete { pos, text: t } => pos + t.len() <= text.len(),
    }
}

/// The error a redo of `e` on `text` fails with.
pub open spec fn redo_error(e: EditModel, text: Seq<u8>) -> ReadError {
    match e {
        EditModel::Delete { .. } => ReadError::OutOfBounds,
        EditModel::Insert { pos, .. } => if pos > text.len() {
            ReadError::OutOfBounds
        } else {
            ReadError::InvalidUtf8
        },
    }
}

/// `after` is `before` with the edits `edits` made in turn and recorded for
/// undo: the redo history is cleared and the document marked changed once
/// any was made, and the path, line ending and history room stay. With no
/// edit the document is unchanged.
pub open spec fn recorded_edits(before: Document, after: Document, edits: Seq<EditModel>) -> bool {
    if edits.len() == 0 {
        after == before
    } else {
        &&& after.undo_list() == history_after_pushes(before.undo_list(), edits, before.history_limit())
        &&& after.redo_list() == Seq::<EditModel>::empty()
        &&& after.dirty_flag()
        &&& after.has_path() == before.has_path()
        &&& after.ending() == before.ending()
        &&& after.history_limit() == before.history_limit()
    }
}

/// Two recorded runs of edits make one.
pub proof fn lemma_recorded_concat(d0: Document, d1: Document, d2: Document, a: Seq<EditModel>, b: Seq<EditModel>)
    requires
        recorded_edits(d0, d1, a),
        recorded_edits(d1, d2, b),
    ensures
        recorded_edits(d0, d2, a + b),
{
    if a.len() == 0 {
        assert(a + b =~= b);
    } else if b.len() == 0 {
        assert(a + b =~= a);
    } else {
        lemma_pushes_concat(d0.undo_list(), a, b, d0.history_limit());
    }
}

/// One recorded edit.
pub proof fn lemma_recorded_one(before: Document, after: Document, e: EditModel)
    requires
        after.undo_list() == history_after_push(before.undo_list(), e, before.history_limit()),
        after.redo_list() == Seq::<EditModel>::empty(),
        after.dirty_flag(),
        after.has_path() == before.has_path(),
        after.ending() == before.ending(),
        after.history_limit() == before.history_limit(),
    ensures
        recorded_edits(before, after, seq![e]),
{
    let one = seq![e];
    let l1 = history_after_push(before.undo_list(), e, before.history_limit());
    assert(one.drop_first() =~= Seq::<EditModel>::empty());
    assert(one[0] == e);
    assert(history_after_pushes(l1, Seq::<EditModel>::empty(), before.history_limit()) == l1);
    assert(history_after_pushes(before.undo_list(), one, before.history_limit()) == l1);
}

/// How the line starts move when the text changes by `e` (`forward`) or by
/// its inverse.
pub open spec fn starts_follow(old: Seq<usize>, new: Seq<usize>, e: EditModel, forward: bool) -> bool {
    match e {
        EditModel::Insert { pos, text: t } => if forward {
            insert_moves_starts(old, new, pos as int, t)
        } else {
            delete_moves_starts(old, new, pos as int, t.len() as int)
        },
        EditModel::Delete { pos, text: t } => if forward {
            delete_moves_starts(old, new, pos as int, t.len() as int)
        } else {
            insert_moves_starts(old, new, pos as int, t)
        },
    }
}

/// Undoing an insertion gives back the text it was made in.
pub proof fn lemma_undo_inverts_insert(text: Seq<u8>, pos: usize, ins: Seq<u8>)
    requires
        pos <= text.len(),
    ensures
        undo_succeeds(EditModel::Insert { pos, text: ins }, spliced_in(text, pos as int, ins)),
        undone(EditModel::Insert { pos, text: ins }, spliced_in(text, pos as int, ins)) == text,
{
    assert(cut_out(spliced_in(text, pos as int, ins), pos as int, ins.len() as int) =~= text);
}

/// Undoing a deletion gives back the text it was made in, when the removed
/// bytes are empty or well-formed UTF-8.
pub proof fn lemma_undo_inverts_delete(text: Seq<u8>, start: usize, end: usize)
    requires
        start <= end <= text.len(),
        start == end || is_utf8(text.subrange(start as int, end as int)),
    ensures
        undo_succeeds(
            EditModel::Delete { pos: start, text: text.subrange(start as int, end as int) },
            cut_out(text, start as int, end - start),
        ),
        undone(
            EditModel::Delete { pos: start, text: text.subrange(start as int, end as int) },
            cut_out(text, start as int, end - start),
        ) == text,
{
    assert(spliced_in(cut_out(text, start as int, end - start), start as int, text.subrange(start as int, end as int)) =~= text);
}

/// Right after an edit is made and recorded, the document can undo, the
/// undo goes through, and it gives back the text from before the edit (for
/// a deletion, when the removed bytes are empty or well-formed UTF-8).
pub proof fn lemma_recorded_edit_undoes(before: Document, after: Document, e: EditModel)
    requires
        before.wf(),
        after.wf(),
        edit_fits(e, before.text()),
        after.text() == edit_result(e, before.text()),
        after.undo_list().len() > 0,
        after.undo_list().last() == e,
        e matches EditModel::Delete { text: t, .. } ==> (t.len() == 0 || is_utf8(t)),
    ensures
        after.undo_fits(),
        undo_succeeds(e, after.text()),
        undone(e, after.text()) == before.text(),
{
    before.piece_table().lemma_len_fits();
    match e {
        EditModel::Insert { pos, text: t } => {
            lemma_undo_inverts_insert(before.text(), pos, t);
        },
        EditModel::Delete { pos, text: t } => {
            assert(before.text().subrange(pos as int, pos + t.len()) == t);
            lemma_undo_inverts_delete(before.text(), pos, (pos + t.len()) as usize);
        },
    }
}

/// Redoing an edit applies it again.
pub proof fn lemma_redo_reapplies(e: EditModel, text: Seq<u8>)
    requires
        redo_succeeds(e, text),
    ensures
        match e {
            EditModel::Insert { pos, text: t } => spliced_in(text, pos as int, t) == edit_result(e, text),
            EditModel::Delete { pos, text: t } => cut_out(text, pos as int, t.len() as int) == edit_result(e, text),
        },
{
}

/// `e` can be made on `text`: an insertion within it, or a deletion of the
/// bytes that stand where it deletes.
pub open spec fn edit_fits(e: EditModel, text: Seq<u8>) -> bool {
    match e {
        EditModel::Insert { pos, .. } => pos <= text.len(),
        EditModel::Delete { pos, text: t } => pos + t.len() <= text.len() && text.subrange(pos as int, pos + t.len()) == t,
    }
}

/// The edits `edits` can be made one after another from `text`.
pub open spec fn edits_fit(text: Seq<u8>, edits: Seq<EditModel>) -> bool
    decreases edits.len(),
{
    edits.len() == 0 || (edit_fits(edits[0], text) && edits_fit(edit_result(edits[0], text), edits.drop_first()))
}

/// The text after the edits `edits` are made one after another on `text`.
pub open spec fn applied(text: Seq<u8>, edits: Seq<EditModel>) -> Seq<u8>
    decreases edits.len(),
{
    if edits.len() == 0 {
        text
    } else {
        applied(edit_result(edits[0], text), edits.drop_first())
    }
}

/// The text after undoing the edits `edits` on `text`, the latest first.
pub open spec fn undone_all(text: Seq<u8>, edits: Seq<EditModel>) -> Seq<u8>
    decreases edits.len(),
{
    if edits.len() == 0 {
        text
    } else {
        undone(edits[0], undone_all(text, edits.drop_first()))
    }
}

/// Every step of undoing `edits` on `text`, the latest first, succeeds.
pub open spec fn undo_steps_succeed(text: Seq<u8>, edits: Seq<EditModel>) -> bool
    decreases edits.len(),
{
    edits.len() == 0 || (undo_steps_succeed(text, edits.drop_first()) && undo_succeeds(
        edits[0],
        undone_all(text, edits.drop_first()),
    ))
}

/// Every deletion among `edits` took out empty or well-formed UTF-8 bytes.
pub open spec fn deletions_utf8(edits: Seq<EditModel>) -> bool {
    forall|i: int|
        0 <= i < edits.len() ==> match #[trigger] edits[i] {
            EditModel::Delete { text: t, .. } => t.len() == 0 || is_utf8(t),
            EditModel::Insert { .. } => true,
        }
}

/// Undoing a run of edits, the latest first, gives back the text they were
/// made on; each undo step succeeds when every deletion took out empty or
/// well-formed UTF-8 bytes.
pub proof fn lemma_undo_all_restores(text: Seq<u8>, edits: Seq<EditModel>)
    requires
        edits_fit(text, edits),
    ensures
        undone_all(applied(text, edits), edits) == text,
        deletions_utf8(edits) ==> undo_steps_succeed(applied(text, edits), edits),
    decreases edits.len(),
{
    if edits.len() > 0 {
        let e = edits[0];
        let rest = edits.drop_first();
        let mid = edit_result(e, text);
        assert(edit_fits(e, text));
        lemma_undo_all_restores(mid, rest);
        assert(applied(text, edits) == applied(mid, rest));
        assert(undone_all(applied(mid, rest), rest) == mid);
        match e {
            EditModel::Insert { pos, text: t } => {
                lemma_undo_inverts_insert(text, pos, t);
            },
            EditModel::Delete { pos, text: t } => {
                assert(text.subrange(pos as int, pos + t.len()) == t);
                if deletions_utf8(edits) {
                    assert(match edits[0] {
                        EditModel::Delete { text: t, .. } => t.len() == 0 || is_utf8(t),
                        EditModel::Insert { .. } => true,
                    });
                }
                assert(spliced_in(cut_out(text, pos as int, t.len() as int), pos as int, t) =~= text);
            },
        }
        if deletions_utf8(edits) {
            assert forall|i: int| 0 <= i < rest.len() implies match #[trigger] rest[i] {
                EditModel::Delete { text: t, .. } => t.len() == 0 || is_utf8(t),
                EditModel::Insert { .. } => true,
            } by {
                assert(rest[i] == edits[i + 1]);
            }
        }
    }
}

/// An open text document: its bytes, line index, edit history and file
/// state.
#[derive(Debug)]
pub struct Document {
    table: PieceTable,
    lines: LineIndex,
    undo: UndoStack,
    path: Option<PathBuf>,
    dirty: bool,
    line_ending: LineEnding,
}

impl Document {
    /// The document bytes.
    pub closed spec fn text(&self) -> Seq<u8> {
        self.table@
    }

    /// The piece table that holds the bytes.
    pub closed spec fn piece_table(&self) -> PieceTable {
        self.table
    }

    /// The line index.
    pub closed spec fn line_index(&self) -> LineIndex {
        self.lines
    }

    /// Edits that can be undone, oldest first.
    pub closed spec fn undo_list(&self) -> Seq<EditModel> {
        self.undo.undo_list()
    }

    /// Edits that can be redone, the next one last.
    pub closed spec fn redo_list(&self) -> Seq<EditModel> {
        self.undo.redo_list()
    }

    /// How many edits the undo history keeps.
    pub closed spec fn history_limit(&self) -> usize {
        self.undo.capacity()
    }

    pub closed spec fn dirty_flag(&self) -> bool {
        self.dirty
    }

    pub closed spec fn ending(&self) -> LineEnding {
        self.line_ending
    }

    pub closed spec fn has_path(&self) -> bool {
        self.path is Some
    }

    /// The path the document is saved to, if it has one.
    pub closed spec fn stored_path(&self) -> Option<PathBuf> {
        self.path
    }

    /// The parts are well formed, the line index stays within the text, the
    /// undo history has room for an edit, and every recorded edit stays
    /// within `usize` offsets.
    pub open spec fn wf(&self) -> bool {
        &&& self.piece_table().wf()
        &&& self.line_index().wf()
        &&& self.line_index().last_start() <= self.text().len()
        &&& self.line_index().scanned() <= self.text().len()
        &&& self.history_limit() > 0
        &&& forall|i: int| 0 <= i < self.undo_list().len() ==> #[trigger] edit_in_range(self.undo_list()[i])
        &&& forall|i: int| 0 <= i < self.redo_list().len() ==> #[trigger] edit_in_range(self.redo_list()[i])
    }

    /// Well-formedness depends only on the table, the line index and the
    /// histories.
    pub proof fn lemma_wf_same_parts(a: Self, b: Self)
        requires
            a.wf(),
            a.piece_table() == b.piece_table(),
            a.line_index() == b.line_index(),
            a.undo_list() == b.undo_list(),
            a.redo_list() == b.redo_list(),
            a.history_limit() == b.history_limit(),
        ensures
            b.wf(),
    {
        assert forall|i: int| 0 <= i < b.undo_list().len() implies #[trigger] edit_in_range(b.undo_list()[i]) by {
            assert(edit_in_range(a.undo_list()[i]));
        }
        assert forall|i: int| 0 <= i < b.redo_list().len() implies #[trigger] edit_in_range(b.redo_list()[i]) by {
            assert(edit_in_range(a.redo_list()[i]));
        }
    }

    /// The document text is the piece table's content.
    /// Well-formedness survives a change of the line index to another
    /// well-formed one that stays within the text.
    pub proof fn lemma_wf_new_index(a: Self, b: Self)
        requires
            a.wf(),
            a.piece_table() == b.piece_table(),
            a.undo_list() == b.undo_list(),
            a.redo_list() == b.redo_list(),
            a.history_limit() == b.history_limit(),
            b.line_index().wf(),
            b.line_index().last_start() <= b.text().len(),
            b.line_index().scanned() <= b.text().len(),
        ensures
            b.wf(),
    {
        assert forall|i: int| 0 <= i < b.undo_list().len() implies #[trigger] edit_in_range(b.undo_list()[i]) by {
            assert(edit_in_range(a.undo_list()[i]));
        }
        assert forall|i: int| 0 <= i < b.redo_list().len() implies #[trigger] edit_in_range(b.redo_list()[i]) by {
            assert(edit_in_range(a.redo_list()[i]));
        }
    }

    pub proof fn lemma_text_is_table(&self)
        ensures
            self.text() == self.piece_table()@,
    {
    }

    /// Undoing the latest edit cannot overflow the document length.
    pub open spec fn undo_fits(&self) -> bool {
        self.undo_list().len() > 0 ==> match self.undo_list().last() {
            EditModel::Delete { text, .. } => self.text().len() + text.len() <= usize::MAX,
            EditModel::Insert { .. } => true,
        }
    }

    /// Redoing the next edit cannot overflow the document length.
    pub open spec fn redo_fits(&self) -> bool {
        self.redo_list().len() > 0 ==> match self.redo_list().last() {
            EditModel::Insert { text, .. } => self.text().len() + text.len() <= usize::MAX,
            EditModel::Delete { .. } => true,
        }
    }

    pub fn new() -> (r: Self)
        ensures
            r.wf(),
            r.text() == Seq::<u8>::empty(),
            r.line_index().starts() == seq![0usize],
            r.undo_list().len() == 0,
            r.redo_list().len() == 0,
            r.history_limit() == 512,
            !r.has_path(),
            !r.dirty_flag(),
            r.ending() == LineEnding::Lf,
    {
        Self {
            table: PieceTable::new_empty(),
            lines: LineIndex::new(),
            undo: UndoStack::new(512),
            path: None,
            dirty: false,
            line_ending: LineEnding::Lf,
        }
    }

    pub fn from_table(table: PieceTable, lines: LineIndex, line_ending: LineEnding) -> (r: Self)
        requires
            table.wf(),
            lines.wf(),
            lines.last_start() <= table@.len(),
            lines.scanned() <= table@.len(),
        ensures
            r.wf(),
            r.piece_table() == table,
            r.line_index() == lines,
            r.undo_list().len() == 0,
            r.redo_list().len() == 0,
            r.history_limit() == 512,
            !r.has_path(),
            !r.dirty_flag(),
            r.ending() == line_ending,
    {
        Self { table, lines, undo: UndoStack::new(512), path: None, dirty: false, line_ending }
    }

    pub fn len(&self) -> (r: usize)
        requires
            self.wf(),
        ensures
            r == self.text().len(),
    {
        self.table.len()
    }

    pub fn is_empty(&self) -> (r: bool)
        requires
            self.wf(),
        ensures
            r == (self.text().len() == 0),
    {
        self.table.is_empty()
    }

    pub fn path(&self) -> (r: Option<&Path>)
        ensures
            r is Some <==> self.has_path(),
    {
        match &self.path {
            Some(p) => Some(path_buf_as_path(p)),
            None => None,
        }
    }

    pub fn set_path(&mut self, path: PathBuf)
        ensures
            final(self).has_path(),
            final(self).stored_path() == Some(path),
            final(self).piece_table() == old(self).piece_table(),
            final(self).line_index() == old(self).line_index(),
            final(self).undo_list() == old(self).undo_list(),
            final(self).redo_list() == old(self).redo_list(),
            final(self).history_limit() == old(self).history_limit(),
            final(self).dirty_flag() == old(self).dirty_flag(),
            final(self).ending() == old(self).ending(),
            old(self).wf() ==> final(self).wf(),
    {
        self.path = Some(path);
        proof {
            if old(self).wf() {
                Self::lemma_wf_same_parts(*old(self), *self);
            }
        }
    }

    pub fn clear_path(&mut self)
        ensures
            !final(self).has_path(),
            final(self).piece_table() == old(self).piece_table(),
            final(self).line_index() == old(self).line_index(),
            final(self).undo_list() == old(self).undo_list(),
            final(self).redo_list() == old(self).redo_list(),
            final(self).history_limit() == old(self).history_limit(),
            final(self).dirty_flag() == old(self).dirty_flag(),
            final(self).ending() == old(self).ending(),
            old(self).wf() ==> final(self).wf(),
    {
        self.path = None;
        proof {
            if old(self).wf() {
                Self::lemma_wf_same_parts(*old(self), *self);
            }
        }
    }

    pub fn is_dirty(&self) -> (r: bool)
        ensures
            r == self.dirty_flag(),
    {
        self.dirty
    }

    pub fn set_dirty(&mut self, dirty: bool)
        ensures
            final(self).dirty_flag() == dirty,
            final(self).has_path() == old(self).has_path(),
            final(self).piece_table() == old(self).piece_table(),
            final(self).line_index() == old(self).line_index(),
            final(self).undo_list() == old(self).undo_list(),
            final(self).redo_list() == old(self).redo_list(),
            final(self).history_limit() == old(self).history_limit(),
            final(self).ending() == old(self).ending(),
            old(self).wf() ==> final(self).wf(),
    {
        self.dirty = dirty;
        proof {
            if old(self).wf() {
                Self::lemma_wf_same_parts(*old(self), *self);
            }
        }
    }

    pub fn line_ending(&self) -> (r: LineEnding)
        ensures
            r == self.ending(),
    {
        self.line_ending
    }

    pub fn set_line_ending(&mut self, ending: LineEnding)
        ensures
            final(self).ending() == ending,
            final(self).dirty_flag() == old(self).dirty_flag(),
            final(self).has_path() == old(self).has_path(),
            final(self).piece_table() == old(self).piece_table(),
            final(self).line_index() == old(self).line_index(),
            final(self).undo_list() == old(self).undo_list(),
            final(self).redo_list() == old(self).redo_list(),
            final(self).history_limit() == old(self).history_limit(),
            old(self).wf() ==> final(self).wf(),
    {
        self.line_ending = ending;
        proof {
            if old(self).wf() {
                Self::lemma_wf_same_parts(*old(self), *self);
            }
        }
    }

    pub fn lines(&self) -> (r: &LineIndex)
        ensures
            *r == self.line_index(),
    {
        &self.lines
    }

    pub fn table(&self) -> (r: &PieceTable)
        ensures
            *r == self.piece_table(),
    {
        &self.table
    }

    pub fn can_undo(&self) -> (r: bool)
        ensures
            r == (self.undo_list().len() > 0),
    {
        self.undo.can_undo()
    }

    pub fn can_redo(&self) -> (r: bool)
        ensures
            r == (self.redo_list().len() > 0),
    {
        self.undo.can_redo()
    }

    pub fn lines_mut(&mut self) -> (r: &mut LineIndex)
        ensures
            *r == old(self).line_index(),
            final(self).line_index() == *final(r),
            final(self).piece_table() == old(self).piece_table(),
            final(self).undo_list() == old(self).undo_list(),
            final(self).redo_list() == old(self).redo_list(),
            final(self).history_limit() == old(self).history_limit(),
            final(self).dirty_flag() == old(self).dirty_flag(),
            final(self).has_path() == old(self).has_path(),
            final(self).ending() == old(self).ending(),
    {
        &mut self.lines
    }

    pub fn table_mut(&mut self) -> (r: &mut PieceTable)
        ensures
            *r == old(self).piece_table(),
            final(self).piece_table() == *final(r),
            final(self).line_index() == old(self).line_index(),
            final(self).undo_list() == old(self).undo_list(),
            final(self).redo_list() == old(self).redo_list(),
            final(self).history_limit() == old(self).history_limit(),
            final(self).dirty_flag() == old(self).dirty_flag(),
            final(self).has_path() == old(self).has_path(),
            final(self).ending() == old(self).ending(),
    {
        &mut self.table
    }

    proof fn lemma_lines_bounds(old_lines: LineIndex, new_lines: LineIndex, e: EditModel, forward: bool, old_len: int, new_len: int)
        requires
            old_lines.wf(),
            new_lines.wf(),
            old_lines.last_start() <= old_len,
            starts_follow(old_lines.starts(), new_lines.starts(), e, forward),
            match e {
                EditModel::Insert { pos, text } => if forward {
                    pos <= old_len && new_len == old_len + text.len()
                } else {
                    pos + text.len() <= old_len && new_len == old_len - text.len()
                },
                EditModel::Delete { pos, text } => if forward {
                    pos + text.len() <= old_len && new_len == old_len - text.len()
                } else {
                    pos <= old_len && new_len == old_len + text.len()
                },
            },
        ensures
            new_lines.last_start() <= new_len,
    {
        let o = old_lines.starts();
        let n = new_lines.starts();
        let l = n[n.len() - 1] as int;
        assert(has(n, l));
        assert forall|k: int| has(o, k) implies k <= old_len by {
            let i = choose|i: int| 0 <= i < o.len() && o[i] == k;
            assert(o[i] <= o[o.len() - 1]);
        }
    }

    proof fn lemma_history_push(old_list: Seq<EditModel>, e: EditModel, limit: usize)
        requires
            forall|i: int| 0 <= i < old_list.len() ==> #[trigger] edit_in_range(old_list[i]),
            edit_in_range(e),
        ensures
            forall|i: int| 0 <= i < history_after_push(old_list, e, limit).len() ==> #[trigger] edit_in_range(
                history_after_push(old_list, e, limit)[i],
            ),
    {
        let p = old_list.push(e);
        assert forall|i: int| 0 <= i < p.len() implies #[trigger] edit_in_range(p[i]) by {
            if i < old_list.len() {
                assert(p[i] == old_list[i]);
            }
        }
        if old_list.len() + 1 > limit {
            assert forall|i: int| 0 <= i < p.drop_first().len() implies #[trigger] edit_in_range(p.drop_first()[i]) by {
                assert(p.drop_first()[i] == p[i + 1]);
            }
        }
    }

    /// Puts `text` in at `pos` and records the edit for undo.
    pub fn insert(&mut self, pos: usize, text: &str) -> (r: Result<(), ReadError>)
        requires
            old(self).wf(),
            old(self).text().len() + text.spec_bytes().len() <= usize::MAX,
        ensures
            final(self).wf(),
            final(self).has_path() == old(self).has_path(),
            final(self).ending() == old(self).ending(),
            final(self).history_limit() == old(self).history_limit(),
            pos > old(self).text().len() ==> {
                &&& r == Err::<(), ReadError>(ReadError::OutOfBounds)
                &&& *final(self) == *old(self)
            },
            pos <= old(self).text().len() ==> {
                &&& r is Ok
                &&& final(self).text() == spliced_in(old(self).text(), pos as int, text.spec_bytes())
                &&& insert_moves_starts(old(self).line_index().starts(), final(self).line_index().starts(), pos as int, text.spec_bytes())
                &&& indexes_lines(old(self).line_index().starts(), old(self).text())
                    ==> indexes_lines(final(self).line_index().starts(), final(self).text())
                &&& final(self).undo_list() == history_after_push(
                    old(self).undo_list(),
                    EditModel::Insert { pos, text: text.spec_bytes() },
                    old(self).history_limit(),
                )
                &&& final(self).undo_list().len() > 0
                &&& final(self).undo_list().last() == EditModel::Insert { pos, text: text.spec_bytes() }
                &&& final(self).redo_list() == Seq::<EditModel>::empty()
                &&& final(self).dirty_flag()
            },
    {
        let bytes = text.as_bytes();
        proof {
            vstd::utf8::encode_utf8_valid_utf8(text@);
        }
        self.table.insert(pos, bytes)?;
        self.lines.apply_insert(pos, bytes);
        let ghost e = EditModel::Insert { pos, text: bytes@ };
        let action = EditAction::Insert { pos, text: vstd::slice::slice_to_vec(bytes) };
        assert(action@ == e);
        self.undo.push(action);
        self.dirty = true;
        proof {
            Self::lemma_lines_bounds(old(self).lines, self.lines, e, true, old(self).table@.len() as int, self.table@.len() as int);
            Self::lemma_history_push(old(self).undo_list(), e, old(self).history_limit());
            lemma_push_is_latest(old(self).undo_list(), e, old(self).history_limit());
            if indexes_lines(old(self).line_index().starts(), old(self).text()) {
                lemma_insert_keeps_index(old(self).line_index().starts(), self.line_index().starts(), old(self).text(), pos as int, bytes@);
            }
        }
        Ok(())
    }

    /// Takes out the bytes `start .. end` and records the edit for undo.
    pub fn delete(&mut self, start: usize, end: usize) -> (r: Result<(), ReadError>)
        requires
            old(self).wf(),
        ensures
            final(self).wf(),
            final(self).has_path() == old(self).has_path(),
            final(self).ending() == old(self).ending(),
            final(self).history_limit() == old(self).history_limit(),
            (start > end || end > old(self).text().len()) ==> {
                &&& r == Err::<(), ReadError>(ReadError::OutOfBounds)
                &&& *final(self) == *old(self)
            },
            (start <= end && end <= old(self).text().len()) ==> {
                &&& r is Ok
                &&& final(self).text() == cut_out(old(self).text(), start as int, end - start)
                &&& delete_moves_starts(old(self).line_index().starts(), final(self).line_index().starts(), start as int, end - start)
                &&& indexes_lines(old(self).line_index().starts(), old(self).text())
                    ==> indexes_lines(final(self).line_index().starts(), final(self).text())
                &&& final(self).undo_list() == history_after_push(
                    old(self).undo_list(),
                    EditModel::Delete { pos: start, text: old(self).text().subrange(start as int, end as int) },
                    old(self).history_limit(),
                )
                &&& final(self).undo_list().len() > 0
                &&& final(self).undo_list().last() == EditModel::Delete { pos: start, text: old(self).text().subrange(start as int, end as int) }
                &&& final(self).redo_list() == Seq::<EditModel>::empty()
                &&& final(self).dirty_flag()
            },
    {
        let removed = self.table.delete(start, end)?;
        self.lines.apply_delete(start, removed.as_slice());
        let ghost e = EditModel::Delete { pos: start, text: removed@ };
        let action = EditAction::Delete { pos: start, text: removed };
        assert(action@ == e);
        self.undo.push(action);
        self.dirty = true;
        proof {
            Self::lemma_lines_bounds(old(self).lines, self.lines, e, true, old(self).table@.len() as int, self.table@.len() as int);
            Self::lemma_history_push(old(self).undo_list(), e, old(self).history_limit());
            lemma_push_is_latest(old(self).undo_list(), e, old(self).history_limit());
            if indexes_lines(old(self).line_index().starts(), old(self).text()) {
                lemma_delete_keeps_index(old(self).line_index().starts(), self.line_index().starts(), old(self).text(), start as int, end - start);
            }
        }
        Ok(())
    }

    /// Reverts the latest recorded edit. The edit moves to the redo history
    /// even when reverting it fails.
    pub fn undo(&mut self) -> (r: Result<(), ReadError>)
        requires
            old(self).wf(),
            old(self).undo_fits(),
        ensures
            final(self).wf(),
            final(self).has_path() == old(self).has_path(),
            final(self).ending() == old(self).ending(),
            final(self).history_limit() == old(self).history_limit(),
            old(self).undo_list().len() == 0 ==> {
                &&& r is Ok
                &&& *final(self) == *old(self)
            },
            old(self).undo_list().len() > 0 ==> ({
                let e = old(self).undo_list().last();
                &&& final(self).undo_list() == old(self).undo_list().drop_last()
                &&& final(self).redo_list() == old(self).redo_list().push(e)
                &&& r is Ok <==> undo_succeeds(e, old(self).text())
                &&& r is Ok ==> {
                    &&& final(self).text() == undone(e, old(self).text())
                    &&& starts_follow(old(self).line_index().starts(), final(self).line_index().starts(), e, false)
                    &&& final(self).dirty_flag()
                }
                &&& r is Err ==> {
                    &&& r == Err::<(), ReadError>(undo_error(e, old(self).text()))
                    &&& final(self).piece_table() == old(self).piece_table()
                    &&& final(self).line_index() == old(self).line_index()
                    &&& final(self).dirty_flag() == old(self).dirty_flag()
                }
            }),
    {
        let action = match self.undo.pop_undo() {
            Some(a) => a,
            None => {
                return Ok(());
            },
        };
        let ghost e = action@;
        proof {
            assert(edit_in_range(old(self).undo_list()[old(self).undo_list().len() - 1]));
            assert forall|i: int| 0 <= i < self.undo.undo_list().len() implies #[trigger] edit_in_range(self.undo.undo_list()[i]) by {
                assert(edit_in_range(old(self).undo_list()[i]));
            }
            assert forall|i: int| 0 <= i < self.undo.redo_list().len() implies #[trigger] edit_in_range(self.undo.redo_list()[i]) by {
                if i < old(self).redo_list().len() {
                    assert(edit_in_range(old(self).redo_list()[i]));
                }
            }
        }
        match action {
            EditAction::Insert { pos, text } => {
                let end = pos + text.len();
                self.table.delete(pos, end)?;
                self.lines.apply_delete(pos, text.as_slice());
                proof {
                    assert(cut_out(old(self).table@, pos as int, end - pos) == undone(e, old(self).table@));
                    Self::lemma_lines_bounds(old(self).lines, self.lines, e, false, old(self).table@.len() as int, self.table@.len() as int);
                }
            },
            EditAction::Delete { pos, text } => {
                self.table.insert(pos, text.as_slice())?;
                self.lines.apply_insert(pos, text.as_slice());
                proof {
                    Self::lemma_lines_bounds(old(self).lines, self.lines, e, false, old(self).table@.len() as int, self.table@.len() as int);
                }
            },
        }
        self.dirty = true;
        Ok(())
    }

    /// Applies the latest undone edit again. The edit moves back to the undo
    /// history even when applying it fails.
    pub fn redo(&mut self) -> (r: Result<(), ReadError>)
        requires
            old(self).wf(),
            old(self).redo_fits(),
        ensures
            final(self).wf(),
            final(self).has_path() == old(self).has_path(),
            final(self).ending() == old(self).ending(),
            final(self).history_limit() == old(self).history_limit(),
            old(self).redo_list().len() == 0 ==> {
                &&& r is Ok
                &&& *final(self) == *old(self)
            },
            old(self).redo_list().len() > 0 ==> ({
                let e = old(self).redo_list().last();
                &&& final(self).redo_list() == old(self).redo_list().drop_last()
                &&& final(self).undo_list() == old(self).undo_list().push(e)
                &&& r is Ok <==> redo_succeeds(e, old(self).text())
                &&& r is Ok ==> {
                    &&& final(self).text() == edit_result(e, old(self).text())
                    &&& starts_follow(old(self).line_index().starts(), final(self).line_index().starts(), e, true)
                    &&& final(self).dirty_flag()
                }
                &&& r is Err ==> {
                    &&& r == Err::<(), ReadError>(redo_error(e, old(self).text()))
                    &&& final(self).piece_table() == old(self).piece_table()
                    &&& final(self).line_index() == old(self).line_index()
                    &&& final(self).dirty_flag() == old(self).dirty_flag()
                }
            }),
    {
        let action = match self.undo.pop_redo() {
            Some(a) => a,
            None => {
                return Ok(());
            },
        };
        let ghost e = action@;
        proof {
            assert(edit_in_range(old(self).redo_list()[old(self).redo_list().len() - 1]));
            assert forall|i: int| 0 <= i < self.undo.redo_list().len() implies #[trigger] edit_in_range(self.undo.redo_list()[i]) by {
                assert(edit_in_range(old(self).redo_list()[i]));
            }
            assert forall|i: int| 0 <= i < self.undo.undo_list().len() implies #[trigger] edit_in_range(self.undo.undo_list()[i]) by {
                if i < old(self).undo_list().len() {
                    assert(edit_in_range(old(self).undo_list()[i]));
                }
            }
        }
        match action {
            EditAction::Insert { pos, text } => {
                self.table.insert(pos, text.as_slice())?;
                self.lines.apply_insert(pos, text.as_slice());
                proof {
                    Self::lemma_lines_bounds(old(self).lines, self.lines, e, true, old(self).table@.len() as int, self.table@.len() as int);
                }
            },
            EditAction::Delete { pos, text } => {
                let end = pos + text.len();
                self.table.delete(pos, end)?;
                self.lines.apply_delete(pos, text.as_slice());
                proof {
                    assert(cut_out(old(self).table@, pos as int, end - pos) == edit_result(e, old(self).table@));
                    Self::lemma_lines_bounds(old(self).lines, self.lines, e, true, old(self).table@.len() as int, self.table@.len() as int);
                }
            },
        }
        self.dirty = true;
        Ok(())
    }

    /// Empties the document and forgets its history and path.
    pub fn reset(&mut self)
        requires
            old(self).wf(),
        ensures
            final(self).wf(),
            final(self).text() == Seq::<u8>::empty(),
            final(self).line_index().starts() == seq![0usize],
            final(self).undo_list().len() == 0,
            final(self).redo_list().len() == 0,
            final(self).history_limit() == old(self).history_limit(),
            !final(self).has_path(),
            !final(self).dirty_flag(),
            final(self).ending() == LineEnding::Lf,
    {
        self.table = PieceTable::new_empty();
        self.lines = LineIndex::new();
        self.undo.clear();
        self.path = None;
        self.dirty = false;
        self.line_ending = LineEnding::Lf;
    }

    /// Takes new content (as from a reload), forgetting the history; the path
    /// stays.
    pub fn replace_all(&mut self, content: PieceTable, lines: LineIndex, line_ending: LineEnding)
        requires
            old(self).wf(),
            content.wf(),
            lines.wf(),
            lines.last_start() <= content@.len(),
            lines.scanned() <= content@.len(),
        ensures
            final(self).wf(),
            final(self).piece_table() == content,
            final(self).line_index() == lines,
            final(self).undo_list().len() == 0,
            final(self).redo_list().len() == 0,
            final(self).history_limit() == old(self).history_limit(),
            final(self).has_path() == old(self).has_path(),
            !final(self).dirty_flag(),
            final(self).ending() == line_ending,
    {
        self.table = content;
        self.lines = lines;
        self.undo.clear();
        self.dirty = false;
        self.line_ending = line_ending;
    }

    /// The bytes `start .. end`.
    pub fn slice(&self, start: usize, end: usize) -> (r: Result<Vec<u8>, ReadError>)
        requires
            self.wf(),
        ensures
            (start > end || end > self.text().len()) ==> r == Err::<Vec<u8>, ReadError>(ReadError::OutOfBounds),
            (start <= end && end <= self.text().len()) ==> (r matches Ok(v) && v@ == self.text().subrange(
                start as int,
                end as int,
            )),
    {
        self.table.slice(start, end)
    }

    /// The text of line `line`, its line break included; an unknown line
    /// starts at 0, and a line with no recorded successor runs to the end.
    pub fn line_content(&self, line: usize) -> (r: Result<String, ReadError>)
        requires
            self.wf(),
        ensures
            ({
                let starts = self.line_index().starts();
                let start = if line < starts.len() { starts[line as int] as int } else { 0 };
                let end = if line + 1 < starts.len() { starts[line + 1] as int } else { self.text().len() as int };
                r matches Ok(s) && s@ == lossy_text(self.text().subrange(start, end))
            }),
    {
        let start = match self.lines.line_start(line) {
            Some(s) => s,
            None => 0,
        };
        let count = self.lines.line_count();
        let next = if line < usize::MAX { self.lines.line_start(line + 1) } else { None };
        let end = match next {
            Some(e) => e,
            None => self.table.len(),
        };
        proof {
            let st = self.lines.starts();
            assert(st[st.len() - 1] <= self.table@.len());
            if line < st.len() {
                assert(st[line as int] <= st[st.len() - 1]);
            }
            if line + 1 < st.len() {
                assert(st[line + 1] <= st[st.len() - 1]);
                assert(st[line as int] < st[line + 1]);
            }
        }
        let bytes = self.table.slice(start, end)?;
        let text = utf8_lossy(bytes.as_slice());
        assert(bytes@ == self.table@.subrange(start as int, end as int));

        Ok(text)
    }
}

} // verus!

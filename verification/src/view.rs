use vstd::prelude::*;
use vstd::string::*;
use crate::buffer::Document;
use crate::buffer::line_index::{cut_out, line_at, spliced_in};
use crate::buffer::LineEnding;
use crate::encoding::FileEncoding;
use crate::language::{line_text, trim_trailing_breaks, without_trailing_breaks, LanguageId};
use crate::buffer::document::{
    applied, edit_fits, edit_result, edits_fit, lemma_recorded_concat, lemma_recorded_one, lemma_undo_all_restores,
    recorded_edits, undone_all,
};
use crate::buffer::undo::EditModel;
use crate::text::{decimal, decimal_text, chars_of, string_from_chars, lemma_encode_concat, lemma_encode_nonempty, is_utf8, lossy_text, utf8_len_of, utf8_lossy, utf8_width};

verus! {

/// The caret of an editor view: where it is, and where the selection
/// started (the two are equal when nothing is selected).
#[derive(Debug, Clone, Copy, PartialEq, Eq, Structural)]
pub struct Caret {
    pub offset: usize,
    pub anchor: usize,
}

impl Caret {
    /// At the start of the document, nothing selected.
    pub fn new() -> (r: Self)
        ensures
            r.offset == 0,
            r.anchor == 0,
    {
        Caret { offset: 0, anchor: 0 }
    }

    pub fn has_selection(&self) -> (r: bool)
        ensures
            r == (self.offset != self.anchor),
    {
        self.offset != self.anchor
    }

    /// The selected bytes, as `(start, end)` with `start <= end`.
    pub fn selection_range(&self) -> (r: (usize, usize))
        ensures
            r.0 <= r.1,
            (r.0 == self.offset && r.1 == self.anchor) || (r.0 == self.anchor && r.1 == self.offset),
    {
        if self.offset <= self.anchor {
            (self.offset, self.anchor)
        } else {
            (self.anchor, self.offset)
        }
    }

    /// Drops the selection, keeping the caret where it is.
    pub fn collapse_to_offset(&mut self)
        ensures
            final(self).offset == old(self).offset,
            final(self).anchor == old(self).offset,
    {
        self.anchor = self.offset;
    }

    /// Selects a whole document of `doc_len` bytes, the caret at its end.
    pub fn select_all(&mut self, doc_len: usize)
        ensures
            final(self).anchor == 0,
            final(self).offset == doc_len,
    {
        self.anchor = 0;
        self.offset = doc_len;
    }
}

impl Default for Caret {
    fn default() -> (r: Self)
        ensures
            r.offset == 0,
            r.anchor == 0,
    {
        Caret::new()
    }
}

/// `needle` occurs in `hay` at offset `i`.
pub open spec fn occurs_at(hay: Seq<u8>, needle: Seq<u8>, i: int) -> bool {
    0 <= i && i + needle.len() <= hay.len() && hay.subrange(i, i + needle.len()) == needle
}

/// The first offset, from `i` on, at which `needle` occurs in `hay`.
pub open spec fn first_match(hay: Seq<u8>, needle: Seq<u8>, i: int) -> Option<int>
    decreases hay.len() + 1 - i,
{
    if i < 0 || i + needle.len() > hay.len() {
        None
    } else if hay.subrange(i, i + needle.len()) == needle {
        Some(i)
    } else {
        first_match(hay, needle, i + 1)
    }
}

/// What `first_match` finds is the first occurrence from `i` on.
pub proof fn lemma_first_match(hay: Seq<u8>, needle: Seq<u8>, i: int)
    requires
        0 <= i,
    ensures
        first_match(hay, needle, i) matches Some(k) ==> {
            &&& i <= k
            &&& occurs_at(hay, needle, k)
            &&& forall|j: int| i <= j < k ==> !occurs_at(hay, needle, j)
        },
        first_match(hay, needle, i) is None ==> forall|j: int| i <= j ==> !occurs_at(hay, needle, j),
    decreases hay.len() + 1 - i,
{
    if i + needle.len() > hay.len() {
    } else if hay.subrange(i, i + needle.len()) == needle {
    } else {
        lemma_first_match(hay, needle, i + 1);
        assert forall|j: int| i <= j && occurs_at(hay, needle, j) implies j > i && (first_match(hay, needle, i + 1) matches Some(k) ==> k <= j) by {
            if j == i {
                assert(hay.subrange(i, i + needle.len()) == needle);
            }
        }
    }
}

/// The first occurrence from `i` on is what `first_match` finds.
pub proof fn lemma_first_match_is(hay: Seq<u8>, needle: Seq<u8>, i: int, k: Option<int>)
    requires
        0 <= i,
        k matches Some(m) ==> {
            &&& i <= m
            &&& occurs_at(hay, needle, m)
            &&& forall|j: int| i <= j < m ==> !occurs_at(hay, needle, j)
        },
        k is None ==> forall|j: int| i <= j ==> !occurs_at(hay, needle, j),
    ensures
        first_match(hay, needle, i) == k,
{
    lemma_first_match(hay, needle, i);
    match (first_match(hay, needle, i), k) {
        (Some(a), Some(b)) => {
            if a < b {
                assert(!occurs_at(hay, needle, a));
            } else if b < a {
                assert(!occurs_at(hay, needle, b));
            }
        },
        (Some(a), None) => {
            assert(!occurs_at(hay, needle, a));
        },
        (None, Some(b)) => {
            assert(!occurs_at(hay, needle, b));
        },
        (None, None) => {},
    }
}

fn window_matches(hay: &[u8], i: usize, needle: &[u8]) -> (r: bool)
    requires
        i + needle@.len() <= hay@.len(),
    ensures
        r == (hay@.subrange(i as int, i + needle@.len()) == needle@),
{
    let n = needle.len();
    let hl = hay.len();
    let mut j: usize = 0;
    while j < n
        invariant
            hl == hay@.len(),
            i + n <= hay@.len(),
            n == needle@.len(),
            j <= n,
            hay@.subrange(i as int, i + j) == needle@.subrange(0, j as int),
        decreases n - j,
    {
        if hay[i + j] != needle[j] {
            assert(hay@.subrange(i as int, i + n)[j as int] != needle@[j as int]);
            return false;
        }
        assert(hay@.subrange(i as int, i + j + 1) =~= hay@.subrange(i as int, i + j).push(hay@[i + j]));
        assert(needle@.subrange(0, j + 1) =~= needle@.subrange(0, j as int).push(needle@[j as int]));
        j = j + 1;
    }
    assert(needle@.subrange(0, n as int) =~= needle@);
    true
}

/// The first offset at which `needle` occurs in `haystack`; nothing for an
/// empty needle.
pub fn find_bytes(haystack: &[u8], needle: &[u8]) -> (r: Option<usize>)
    ensures
        needle@.len() == 0 ==> r is None,
        needle@.len() > 0 ==> r == (match first_match(haystack@, needle@, 0) {
            Some(i) => Some(i as usize),
            None => None,
        }),
{
    let n = needle.len();
    let h = haystack.len();
    if n == 0 || h < n {
        return None;
    }
    let mut i: usize = 0;
    while i <= h - n
        invariant
            n == needle@.len(),
            h == haystack@.len(),
            0 < n <= h,
            i <= h - n + 1,
            first_match(haystack@, needle@, i as int) == first_match(haystack@, needle@, 0),
        decreases h - n + 1 - i,
    {
        if window_matches(haystack, i, needle) {
            return Some(i);
        }
        i = i + 1;
    }
    None
}

/// Bytes of document read per search step.
pub const SEARCH_CHUNK: usize = 1024 * 1024;

/// What `str::to_lowercase` makes of a text.
pub uninterp spec fn lowercase_of(s: Seq<char>) -> Seq<char>;

/// `c` with an ASCII capital letter made small.
pub open spec fn ascii_lower(c: char) -> char {
    if 'A' <= c <= 'Z' {
        ((c as u32) + 32) as char
    } else {
        c
    }
}

/// `str::to_lowercase`. On ASCII text, Unicode's lower-case mapping makes
/// each capital letter small and keeps every other character.
#[verifier::external_body]
fn to_lowercase(s: &str) -> (r: String)
    ensures
        r@ == lowercase_of(s@),
        (forall|i: int| 0 <= i < s@.len() ==> (s@[i] as u32) < 128) ==> r@ == s@.map_values(|c: char| ascii_lower(c)),
{
    s.to_lowercase()
}

/// The bytes searched for: the query itself, or its lower-case form.
pub open spec fn search_key(query: Seq<char>, case_sensitive: bool) -> Seq<u8> {
    if case_sensitive {
        vstd::utf8::encode_utf8(query)
    } else {
        vstd::utf8::encode_utf8(lowercase_of(query))
    }
}

/// The length of the window read per step: a chunk, or the key when it is
/// longer.
pub open spec fn window_len(key_len: int) -> int {
    if key_len > SEARCH_CHUNK {
        key_len
    } else {
        SEARCH_CHUNK as int
    }
}

/// The bytes searched in the window `pos .. end`: the bytes themselves, or
/// the lower-case form of their (lossy) decoding.
pub open spec fn window_hay(text: Seq<u8>, pos: int, end: int, case_sensitive: bool) -> Seq<u8> {
    if case_sensitive {
        text.subrange(pos, end)
    } else {
        vstd::utf8::encode_utf8(lowercase_of(lossy_text(text.subrange(pos, end))))
    }
}

/// The end of the window that starts at `pos`.
pub open spec fn window_end(text_len: int, pos: int, key_len: int) -> int {
    if pos + window_len(key_len) < text_len {
        pos + window_len(key_len)
    } else {
        text_len
    }
}

/// The search from `pos` on, window by window; successive windows overlap
/// by one byte less than the key. A match is reported at the window's start
/// plus its offset in the window's bytes.
pub open spec fn chunk_scan(text: Seq<u8>, key: Seq<u8>, pos: int, case_sensitive: bool) -> Option<(int, int)>
    decreases text.len() - pos,
{
    if pos < 0 || pos >= text.len() || key.len() == 0 {
        None
    } else {
        let end = window_end(text.len() as int, pos, key.len() as int);
        match first_match(window_hay(text, pos, end, case_sensitive), key, 0) {
            Some(rel) => Some((pos + rel, pos + rel + key.len())),
            None => if end >= text.len() {
                None
            } else {
                chunk_scan(text, key, end - (key.len() - 1), case_sensitive)
            },
        }
    }
}

/// What `find_next` reports for `query` in `text` from offset `from`.
pub open spec fn found_at(text: Seq<u8>, query: Seq<char>, from: int, case_sensitive: bool) -> Option<(int, int)> {
    if query.len() == 0 {
        None
    } else {
        chunk_scan(
            text,
            search_key(query, case_sensitive),
            if from < text.len() { from } else { text.len() as int },
            case_sensitive,
        )
    }
}

/// A found range, when both its ends fit in `usize`.
pub open spec fn fitting(found: Option<(int, int)>) -> Option<(usize, usize)> {
    match found {
        Some((a, b)) => if 0 <= a <= b <= usize::MAX {
            Some((a as usize, b as usize))
        } else {
            None
        },
        None => None,
    }
}

/// The range of the first occurrence of `key` in `text` from `pos` on.
pub open spec fn first_range(text: Seq<u8>, key: Seq<u8>, pos: int) -> Option<(int, int)> {
    match first_match(text, key, pos) {
        Some(i) => Some((i, i + key.len())),
        None => None,
    }
}

/// An occurrence inside a window of the text is an occurrence in the text,
/// shifted by the window's start.
proof fn lemma_window_occurrence(text: Seq<u8>, key: Seq<u8>, pos: int, end: int, j: int)
    requires
        0 <= pos <= end <= text.len(),
        0 <= j,
        j + key.len() <= end - pos,
    ensures
        occurs_at(text.subrange(pos, end), key, j) == occurs_at(text, key, pos + j),
{
    assert(text.subrange(pos, end).subrange(j, j + key.len()) =~= text.subrange(pos + j, pos + j + key.len()));
}

/// Searching case-sensitively window by window finds the first occurrence
/// of the key in the whole text from `pos` on: no match is lost where two
/// windows meet.
pub proof fn lemma_chunk_scan_finds_first(text: Seq<u8>, key: Seq<u8>, pos: int)
    requires
        0 <= pos,
        key.len() > 0,
    ensures
        chunk_scan(text, key, pos, true) == first_range(text, key, pos),
    decreases text.len() - pos,
{
    if pos >= text.len() {
        lemma_first_match_is(text, key, pos, None);
    } else {
        let end = window_end(text.len() as int, pos, key.len() as int);
        let hay = text.subrange(pos, end);
        lemma_first_match(hay, key, 0);
        match first_match(hay, key, 0) {
            Some(rel) => {
                lemma_window_occurrence(text, key, pos, end, rel);
                assert forall|j: int| pos <= j < pos + rel implies !occurs_at(text, key, j) by {
                    lemma_window_occurrence(text, key, pos, end, j - pos);
                }
                lemma_first_match_is(text, key, pos, Some(pos + rel));
            },
            None => {
                assert forall|j: int| pos <= j && j + key.len() <= end implies !occurs_at(text, key, j) by {
                    lemma_window_occurrence(text, key, pos, end, j - pos);
                }
                if end >= text.len() {
                    lemma_first_match_is(text, key, pos, None);
                } else {
                    let next = end - (key.len() - 1);
                    lemma_chunk_scan_finds_first(text, key, next);
                    lemma_first_match(text, key, next);
                    lemma_first_match_is(text, key, pos, first_match(text, key, next));
                }
            },
        }
    }
}

/// The first match of `query` at or after `from`, searched a window at a
/// time; without `case_sensitive`, matching goes by the lower-case forms of
/// the query and of each window's text.
pub fn find_next(doc: &Document, query: &str, from: usize, case_sensitive: bool) -> (r: Option<(usize, usize)>)
    requires
        doc.wf(),
    ensures
        r == fitting(found_at(doc.text(), query@, from as int, case_sensitive)),
        case_sensitive && query@.len() > 0 ==> r == fitting(first_range(
            doc.text(),
            query.spec_bytes(),
            if from < doc.text().len() { from as int } else { doc.text().len() as int },
        )),
{
    if query.is_empty() {
        return None;
    }
    let key: Vec<u8> = if case_sensitive {
        vstd::slice::slice_to_vec(query.as_bytes())
    } else {
        let lower = to_lowercase(query);
        vstd::slice::slice_to_vec(lower.as_str().as_bytes())
    };
    let ghost text = doc.text();
    let qlen = key.len();
    let n = doc.len();
    let start = if from < n { from } else { n };
    proof {
        if case_sensitive {
            lemma_encode_nonempty(query@);
            lemma_chunk_scan_finds_first(text, key@, start as int);
        }
    }
    if qlen == 0 {
        return None;
    }
    let w = if qlen > SEARCH_CHUNK { qlen } else { SEARCH_CHUNK };
    assert(found_at(text, query@, from as int, case_sensitive) == chunk_scan(text, key@, start as int, case_sensitive));
    let mut pos = start;
    while pos < n
        invariant
            doc.wf(),
            text == doc.text(),
            n == text.len(),
            key@ == search_key(query@, case_sensitive),
            qlen == key@.len(),
            qlen > 0,
            w == window_len(qlen as int),
            pos <= n,
            chunk_scan(text, key@, pos as int, case_sensitive) == chunk_scan(text, key@, start as int, case_sensitive),
            found_at(text, query@, from as int, case_sensitive) == chunk_scan(text, key@, start as int, case_sensitive),
            case_sensitive ==> chunk_scan(text, key@, start as int, true) == first_range(text, query.spec_bytes(), start as int),
            start as int == (if from < text.len() { from as int } else { text.len() as int }),
        decreases n - pos,
    {
        let end = if w >= n - pos { n } else { pos + w };
        assert(end == window_end(n as int, pos as int, qlen as int));
        let bytes = match doc.slice(pos, end) {
            Ok(b) => b,
            Err(_) => return None,
        };
        let hay: Vec<u8> = if case_sensitive {
            bytes
        } else {
            let decoded = utf8_lossy(bytes.as_slice());
            let lower = to_lowercase(decoded.as_str());
            vstd::slice::slice_to_vec(lower.as_str().as_bytes())
        };
        assert(hay@ == window_hay(text, pos as int, end as int, case_sensitive));
        let hay_len = hay.len();
        let found = find_bytes(hay.as_slice(), key.as_slice());
        if let Some(rel) = found {
            proof {
                lemma_first_match(hay@, key@, 0);
                assert(first_match(hay@, key@, 0) == Some(rel as int));
                assert(chunk_scan(text, key@, pos as int, case_sensitive) == Some((pos + rel, pos + rel + qlen)));
            }
            if rel > usize::MAX - pos || qlen > usize::MAX - pos - rel {
                return None;
            }
            return Some((pos + rel, pos + rel + qlen));
        }
        assert(first_match(window_hay(text, pos as int, end as int, case_sensitive), key@, 0) is None);
        if end >= n {
            assert(chunk_scan(text, key@, pos as int, case_sensitive) is None);
            return None;
        }
        pos = end - (qlen - 1);
    }
    None
}

/// `text` with the bytes `a .. b` replaced by `repl`.
pub open spec fn replaced(text: Seq<u8>, a: int, b: int, repl: Seq<u8>) -> Seq<u8> {
    spliced_in(cut_out(text, a, b - a), a, repl)
}

/// The edits that replacing the bytes `a .. b` of `text` with `repl`
/// records: the deletion, then the insertion.
pub open spec fn replace_edits(text: Seq<u8>, a: int, b: int, repl: Seq<u8>) -> Seq<EditModel> {
    seq![
        EditModel::Delete { pos: a as usize, text: text.subrange(a, b) },
        EditModel::Insert { pos: a as usize, text: repl },
    ]
}

/// Replaces the next match of `query` at or after `from` with
/// `replacement`, recording a delete and an insert for undo; gives the
/// range of the inserted text.
pub fn replace_next(doc: &mut Document, query: &str, replacement: &str, from: usize, case_sensitive: bool) -> (r: Option<(usize, usize)>)
    requires
        old(doc).wf(),
    ensures
        final(doc).wf(),
        ({
            let text = old(doc).text();
            let repl = replacement.spec_bytes();
            match fitting(found_at(text, query@, from as int, case_sensitive)) {
                Some((a, b)) => if replace_fits(text, a as int, b as int, repl) {
                    &&& r == Some((a, (a + repl.len()) as usize))
                    &&& final(doc).text() == replaced(text, a as int, b as int, repl)
                    &&& recorded_edits(*old(doc), *final(doc), replace_edits(text, a as int, b as int, repl))
                } else {
                    r is None && *final(doc) == *old(doc)
                },
                None => r is None && *final(doc) == *old(doc),
            }
        }),
{
    let found = find_next(doc, query, from, case_sensitive);
    let (a, b) = match found {
        Some(p) => p,
        None => return None,
    };
    let ghost d0 = *doc;
    if b > doc.len() || doc.len() - (b - a) > usize::MAX - replacement.as_bytes().len() {
        return None;
    }
    if doc.delete(a, b).is_err() {
        return None;
    }
    let ghost d1 = *doc;
    proof {
        lemma_recorded_one(d0, d1, EditModel::Delete { pos: a, text: d0.text().subrange(a as int, b as int) });
    }
    if doc.insert(a, replacement).is_err() {
        return None;
    }
    proof {
        let e1 = EditModel::Delete { pos: a, text: d0.text().subrange(a as int, b as int) };
        let e2 = EditModel::Insert { pos: a, text: replacement.spec_bytes() };
        lemma_recorded_one(d1, *doc, e2);
        lemma_recorded_concat(d0, d1, *doc, seq![e1], seq![e2]);
        assert(seq![e1] + seq![e2] =~= replace_edits(d0.text(), a as int, b as int, replacement.spec_bytes()));
    }
    Some((a, a + replacement.as_bytes().len()))
}

/// Replacing the bytes `a .. b` of `text` with `repl` stays within the text
/// and leaves a text whose length fits in `usize`.
pub open spec fn replace_fits(text: Seq<u8>, a: int, b: int, repl: Seq<u8>) -> bool {
    b <= text.len() && text.len() - (b - a) + repl.len() <= usize::MAX
}

/// `(text, count)` after replacing, at most `left` times, the next match of
/// `query` from `from` on; each search resumes after the inserted text. It
/// stops early where a replacement would make the text too long for
/// `usize` offsets.
pub open spec fn replaced_all(text: Seq<u8>, query: Seq<char>, repl: Seq<u8>, from: int, case_sensitive: bool, left: nat) -> (Seq<u8>, nat)
    decreases left,
{
    if left == 0 {
        (text, 0)
    } else {
        match fitting(found_at(text, query, from, case_sensitive)) {
            Some((a, b)) => if replace_fits(text, a as int, b as int, repl) {
                let rest = replaced_all(
                    replaced(text, a as int, b as int, repl),
                    query,
                    repl,
                    a + repl.len(),
                    case_sensitive,
                    (left - 1) as nat,
                );
                (rest.0, rest.1 + 1)
            } else {
                (text, 0)
            },
            None => (text, 0),
        }
    }
}

/// The edits that Replace All records, in order: for each replacement
/// `replaced_all` makes, a deletion and an insertion.
pub open spec fn replaced_all_edits(text: Seq<u8>, query: Seq<char>, repl: Seq<u8>, from: int, case_sensitive: bool, left: nat) -> Seq<EditModel>
    decreases left,
{
    if left == 0 {
        Seq::empty()
    } else {
        match fitting(found_at(text, query, from, case_sensitive)) {
            Some((a, b)) => if replace_fits(text, a as int, b as int, repl) {
                replace_edits(text, a as int, b as int, repl) + replaced_all_edits(
                    replaced(text, a as int, b as int, repl),
                    query,
                    repl,
                    a + repl.len(),
                    case_sensitive,
                    (left - 1) as nat,
                )
            } else {
                Seq::empty()
            },
            None => Seq::empty(),
        }
    }
}

/// The edits Replace All records can be made in turn on the text it
/// starts from and lead to the text it leaves; undoing them, the latest
/// first, gives the starting text back.
pub proof fn lemma_replace_all_undoable(text: Seq<u8>, query: Seq<char>, repl: Seq<u8>, from: int, case_sensitive: bool, left: nat)
    ensures
        edits_fit(text, replaced_all_edits(text, query, repl, from, case_sensitive, left)),
        applied(text, replaced_all_edits(text, query, repl, from, case_sensitive, left)) == replaced_all(
            text,
            query,
            repl,
            from,
            case_sensitive,
            left,
        ).0,
        undone_all(
            replaced_all(text, query, repl, from, case_sensitive, left).0,
            replaced_all_edits(text, query, repl, from, case_sensitive, left),
        ) == text,
    decreases left,
{
    let edits = replaced_all_edits(text, query, repl, from, case_sensitive, left);
    if left > 0 {
        match fitting(found_at(text, query, from, case_sensitive)) {
            Some((a, b)) => if replace_fits(text, a as int, b as int, repl) {
                let next = replaced(text, a as int, b as int, repl);
                let rest = replaced_all_edits(next, query, repl, a + repl.len(), case_sensitive, (left - 1) as nat);
                lemma_replace_all_undoable(next, query, repl, a + repl.len(), case_sensitive, (left - 1) as nat);
                let d = EditModel::Delete { pos: a, text: text.subrange(a as int, b as int) };
                let i = EditModel::Insert { pos: a, text: repl };
                assert(edits == seq![d, i] + rest);
                assert(edits[0] == d);
                assert(edits.drop_first() =~= seq![i] + rest);
                let cut = edit_result(d, text);
                assert(cut == cut_out(text, a as int, b - a));
                assert(text.subrange(a as int, a + (b - a)) =~= text.subrange(a as int, b as int));
                assert(edit_fits(d, text));
                let tail = seq![i] + rest;
                assert(tail[0] == i);
                assert(tail.drop_first() =~= rest);
                assert(edit_fits(i, cut));
                assert(edit_result(i, cut) == next);
                assert(edits_fit(cut, tail));
                assert(applied(cut, tail) == applied(next, rest));
                assert(applied(text, edits) == applied(cut, tail));
                lemma_undo_all_restores(text, edits);
            },
            None => {},
        }
    }
}

/// Replace All never replaces more often than its limit.
pub proof fn lemma_replaced_all_within_limit(text: Seq<u8>, query: Seq<char>, repl: Seq<u8>, from: int, case_sensitive: bool, left: nat)
    ensures
        replaced_all(text, query, repl, from, case_sensitive, left).1 <= left,
    decreases left,
{
    if left > 0 {
        match fitting(found_at(text, query, from, case_sensitive)) {
            Some((a, b)) => if replace_fits(text, a as int, b as int, repl) {
                lemma_replaced_all_within_limit(
                    replaced(text, a as int, b as int, repl),
                    query,
                    repl,
                    a + repl.len(),
                    case_sensitive,
                    (left - 1) as nat,
                );
            },
            None => {},
        }
    }
}

/// Where the `k`-th replacement recorded in `edits` (a deletion, then an
/// insertion, for each) stands: the offset of its deletion.
pub open spec fn replacement_at(edits: Seq<EditModel>, k: int) -> int {
    match edits[2 * k] {
        EditModel::Delete { pos, .. } => pos as int,
        EditModel::Insert { pos, .. } => pos as int,
    }
}

/// Where the search for the `k`-th replacement starts: at `from` for the
/// first, else just past the text the one before put in.
pub open spec fn search_start(edits: Seq<EditModel>, k: int, from: int, repl_len: int) -> int {
    if k == 0 {
        from
    } else {
        replacement_at(edits, k - 1) + repl_len
    }
}

/// The `k`-th replacement of `edits` replaces `key` by `repl` where `key`
/// first occurs, in the text as it stands then, from where its search
/// starts.
pub open spec fn replaces_first_from(
    text: Seq<u8>,
    edits: Seq<EditModel>,
    k: int,
    key: Seq<u8>,
    repl: Seq<u8>,
    from: int,
) -> bool {
    let before = applied(text, edits.take(2 * k));
    let a = replacement_at(edits, k);
    let s = search_start(edits, k, from, repl.len() as int);
    &&& edits[2 * k] == EditModel::Delete { pos: a as usize, text: key }
    &&& edits[2 * k + 1] == EditModel::Insert { pos: a as usize, text: repl }
    &&& s <= a
    &&& occurs_at(before, key, a)
    &&& forall|p: int| s <= p < a ==> !#[trigger] occurs_at(before, key, p)
}

/// From `s` on, `res` holds no occurrence of `key`, or its first one there
/// could not be replaced by `repl` without the text outgrowing `usize`.
pub open spec fn nothing_left_from(res: Seq<u8>, key: Seq<u8>, repl: Seq<u8>, s: int) -> bool {
    ||| forall|p: int| s <= p ==> !#[trigger] occurs_at(res, key, p)
    ||| exists|p: int|
        s <= p && #[trigger] occurs_at(res, key, p) && (forall|x: int| s <= x < p ==> !occurs_at(res, key, x))
            && !replace_fits(res, p, p + key.len(), repl)
}

proof fn lemma_applied_concat(text: Seq<u8>, x: Seq<EditModel>, y: Seq<EditModel>)
    ensures
        applied(text, x + y) == applied(applied(text, x), y),
    decreases x.len(),
{
    if x.len() == 0 {
        assert(x + y =~= y);
    } else {
        assert((x + y)[0] == x[0]);
        assert((x + y).drop_first() =~= x.drop_first() + y);
        lemma_applied_concat(edit_result(x[0], text), x.drop_first(), y);
    }
}

/// Case-sensitive Replace All scans the text once, left to right: each
/// replacement takes the first occurrence of the query in the text as it
/// stands, searching from just past the text the previous replacement put
/// in (from `from` for the first), so no occurrence in the text not yet
/// scanned is skipped; and when it stops before its limit, nothing is left
/// to replace from there on (or the next occurrence would make the text
/// too long). The result is what its recorded edits make of the text.
pub proof fn lemma_replace_all_scans(text: Seq<u8>, query: Seq<char>, repl: Seq<u8>, from: int, left: nat)
    requires
        query.len() > 0,
        0 <= from <= text.len(),
        text.len() <= usize::MAX,
    ensures
        ({
            let key = vstd::utf8::encode_utf8(query);
            let edits = replaced_all_edits(text, query, repl, from, true, left);
            let r = replaced_all(text, query, repl, from, true, left);
            &&& edits.len() == 2 * r.1
            &&& r.1 <= left
            &&& r.0 == applied(text, edits)
            &&& forall|k: int| 0 <= k < r.1 ==> #[trigger] replaces_first_from(text, edits, k, key, repl, from)
            &&& r.1 < left ==> nothing_left_from(r.0, key, repl, search_start(edits, r.1 as int, from, repl.len() as int))
        }),
    decreases left,
{
    let key = vstd::utf8::encode_utf8(query);
    let edits = replaced_all_edits(text, query, repl, from, true, left);
    let r = replaced_all(text, query, repl, from, true, left);
    let empty = Seq::<EditModel>::empty();
    if left == 0 {
        assert(edits =~= empty);
        return;
    }
    lemma_encode_nonempty(query);
    assert(search_key(query, true) == key);
    lemma_chunk_scan_finds_first(text, key, from);
    assert(found_at(text, query, from, true) == first_range(text, key, from));
    lemma_first_match(text, key, from);
    match first_match(text, key, from) {
        None => {
            assert(edits =~= empty);
        },
        Some(a) => {
            let b = a + key.len();
            assert(fitting(found_at(text, query, from, true)) == Some((a as usize, b as usize)));
            if !replace_fits(text, a, b, repl) {
                assert(edits =~= empty);
                assert(nothing_left_from(r.0, key, repl, from));
            } else {
                let next = replaced(text, a, b, repl);
                let f2 = a + repl.len();
                lemma_replace_all_scans(next, query, repl, f2, (left - 1) as nat);
                let rest = replaced_all_edits(next, query, repl, f2, true, (left - 1) as nat);
                let head = replace_edits(text, a, b, repl);
                assert(edits == head + rest);
                assert(text.subrange(a, b) == key);
                assert(applied(text, head) == next) by {
                    assert(head[0] == EditModel::Delete { pos: a as usize, text: key });
                    assert(head.drop_first() =~= seq![EditModel::Insert { pos: a as usize, text: repl }]);
                    let cut = cut_out(text, a, key.len() as int);
                    let one = seq![EditModel::Insert { pos: a as usize, text: repl }];
                    assert(one.drop_first() =~= Seq::<EditModel>::empty());
                    assert(one[0] == EditModel::Insert { pos: a as usize, text: repl });
                    let sp = spliced_in(cut, a, repl);
                    assert(edit_result(one[0], cut) == sp);
                    assert(applied(sp, Seq::<EditModel>::empty()) == sp);
                    assert(applied(cut, one) == sp);
                }
                lemma_applied_concat(text, head, rest);
                let n = r.1;
                assert forall|k: int| 0 <= k < n implies #[trigger] replaces_first_from(text, edits, k, key, repl, from) by {
                    if k == 0 {
                        assert(edits.take(0) =~= empty);
                        assert(edits[0] == head[0]);
                        assert(edits[1] == head[1]);
                    } else {
                        assert(replaces_first_from(next, rest, k - 1, key, repl, f2));
                        assert(edits.take(2 * k) =~= head + rest.take(2 * (k - 1)));
                        lemma_applied_concat(text, head, rest.take(2 * (k - 1)));
                        assert(edits[2 * k] == rest[2 * (k - 1)]);
                        assert(edits[2 * k + 1] == rest[2 * (k - 1) + 1]);
                        if k > 1 {
                            assert(edits[2 * (k - 1)] == rest[2 * (k - 2)]);
                        } else {
                            assert(edits[0] == head[0]);
                        }
                    }
                }
                if n < left {
                    let s = search_start(edits, n as int, from, repl.len() as int);
                    if n > 1 {
                        assert(edits[2 * (n - 1)] == rest[2 * (n - 2)]);
                    } else {
                        assert(edits[0] == head[0]);
                    }
                    assert(s == search_start(rest, n - 1, f2, repl.len() as int));
                }
            }
        },
    }
}

/// Replaces matches of `query` one after another, at most `limit` times,
/// and gives how many were replaced.
pub fn replace_all(doc: &mut Document, query: &str, replacement: &str, case_sensitive: bool, limit: usize) -> (r: usize)
    requires
        old(doc).wf(),
    ensures
        final(doc).wf(),
        (final(doc).text(), r as nat) == replaced_all(old(doc).text(), query@, replacement.spec_bytes(), 0, case_sensitive, limit as nat),
        recorded_edits(
            *old(doc),
            *final(doc),
            replaced_all_edits(old(doc).text(), query@, replacement.spec_bytes(), 0, case_sensitive, limit as nat),
        ),
{
    let ghost repl = replacement.spec_bytes();
    let ghost total = replaced_all(doc.text(), query@, repl, 0, case_sensitive, limit as nat);
    if query.is_empty() {
        assert(found_at(doc.text(), query@, 0, case_sensitive) is None);
        return 0;
    }
    let rlen = replacement.as_bytes().len();
    let mut count: usize = 0;
    let mut from: usize = 0;
    let ghost d0 = *doc;
    let ghost all_edits = replaced_all_edits(d0.text(), query@, repl, 0, case_sensitive, limit as nat);
    let ghost mut done: Seq<EditModel> = Seq::empty();
    while count < limit
        invariant_except_break
            count <= limit,
        invariant
            doc.wf(),
            rlen == repl.len(),
            repl == replacement.spec_bytes(),
            ({
                let rest = replaced_all(doc.text(), query@, repl, from as int, case_sensitive, (limit - count) as nat);
                total.0 == rest.0 && total.1 == rest.1 + count
            }),
            recorded_edits(d0, *doc, done),
            all_edits == done + replaced_all_edits(doc.text(), query@, repl, from as int, case_sensitive, (limit - count) as nat),
        ensures
            ({
                let rest = replaced_all(doc.text(), query@, repl, from as int, case_sensitive, (limit - count) as nat);
                &&& count <= limit
                &&& rest.0 == doc.text()
                &&& rest.1 == 0
                &&& total.0 == rest.0
                &&& total.1 == rest.1 + count
            }),
            recorded_edits(d0, *doc, done),
            all_edits == done,
        decreases limit - count,
    {
        let ghost before = doc.text();
        let ghost left = (limit - count) as nat;
        let found = find_next(doc, query, from, case_sensitive);
        let (a, b) = match found {
            Some(p) => p,
            None => break,
        };
        let ghost d1 = *doc;
        if b > doc.len() || doc.len() - (b - a) > usize::MAX - rlen {
            proof {
                assert(done + Seq::<EditModel>::empty() =~= done);
            }
            break;
        }
        if doc.delete(a, b).is_err() {
            proof {
                assert(done + Seq::<EditModel>::empty() =~= done);
            }
            break;
        }
        let ghost d2 = *doc;
        proof {
            lemma_recorded_one(d1, d2, EditModel::Delete { pos: a, text: before.subrange(a as int, b as int) });
        }
        if doc.insert(a, replacement).is_err() {
            break;
        }
        assert(doc.text() == replaced(before, a as int, b as int, repl));
        proof {
            let e1 = EditModel::Delete { pos: a, text: before.subrange(a as int, b as int) };
            let e2 = EditModel::Insert { pos: a, text: repl };
            lemma_recorded_one(d2, *doc, e2);
            lemma_recorded_concat(d1, d2, *doc, seq![e1], seq![e2]);
            assert(seq![e1] + seq![e2] =~= replace_edits(before, a as int, b as int, repl));
            lemma_recorded_concat(d0, d1, *doc, done, replace_edits(before, a as int, b as int, repl));
            let rest = replaced_all_edits(doc.text(), query@, repl, a + rlen, case_sensitive, (left - 1) as nat);
            assert(all_edits =~= (done + replace_edits(before, a as int, b as int, repl)) + rest);
            done = done + replace_edits(before, a as int, b as int, repl);
        }
        from = a + rlen;
        count = count + 1;
    }
    proof {
        assert(done + Seq::<EditModel>::empty() =~= done);
    }
    count
}

/// A line break character.
pub open spec fn is_break_char(c: char) -> bool {
    c == '\r' || c == '\n'
}

/// How many characters of `s` are not line breaks.
pub open spec fn non_break_count(s: Seq<char>) -> nat
    decreases s.len(),
{
    if s.len() == 0 {
        0
    } else {
        non_break_count(s.drop_last()) + if is_break_char(s.last()) { 0nat } else { 1nat }
    }
}

/// `c + 1`, held at `usize::MAX`.
pub open spec fn plus_one(c: int) -> int {
    if c + 1 <= usize::MAX {
        c + 1
    } else {
        usize::MAX as int
    }
}

fn count_non_break(s: &str) -> (r: usize)
    ensures
        r == non_break_count(s@),
{
    let chars = chars_of(s);
    let mut count: usize = 0;
    let mut i: usize = 0;
    while i < chars.len()
        invariant
            chars@ == s@,
            i <= chars@.len(),
            count <= i,
            count == non_break_count(chars@.take(i as int)),
        decreases chars@.len() - i,
    {
        assert(chars@.take(i + 1).drop_last() =~= chars@.take(i as int));
        if chars[i] != '\r' && chars[i] != '\n' {
            count = count + 1;
        }
        i = i + 1;
    }
    assert(chars@.take(chars@.len() as int) =~= chars@);
    count
}

/// The 1-based line and column of `offset`: the line is the one whose
/// recorded start is the last at or before `offset`; the column counts the
/// characters (line breaks left out) of the line's text before `offset`,
/// decoded leniently.
pub open spec fn line_col_of(text: Seq<u8>, starts: Seq<usize>, offset: int) -> (int, int) {
    let line = line_at(starts, offset);
    let start = starts[line] as int;
    (
        line + 1,
        plus_one(
            if offset <= text.len() {
                non_break_count(lossy_text(text.subrange(start, offset))) as int
            } else {
                offset - start
            },
        ),
    )
}

/// The 1-based line and column of `offset`. On a line whose text before
/// `offset` is well-formed UTF-8, the column counts its characters.
pub fn line_col_at(doc: &Document, offset: usize) -> (r: (usize, usize))
    requires
        doc.wf(),
    ensures
        (r.0 as int, r.1 as int) == line_col_of(doc.text(), doc.line_index().starts(), offset as int),
        ({
            let starts = doc.line_index().starts();
            let start = starts[line_at(starts, offset as int)] as int;
            let before = doc.text().subrange(start, offset as int);
            start <= offset <= doc.text().len() && is_utf8(before) ==> r.1 == plus_one(
                non_break_count(vstd::utf8::decode_utf8(before)) as int,
            )
        }),
{
    let lines = doc.lines();
    // Reading the count brings in that it fits a usize.
    let _count = lines.line_count();
    let line = lines.line_of_offset(offset);
    let start = match lines.line_start(line) {
        Some(s) => s,
        None => 0,
    };
    let col = match doc.slice(start, offset) {
        Ok(bytes) => {
            let text = utf8_lossy(bytes.as_slice());
            count_non_break(text.as_str())
        },
        Err(_) => offset - start,
    };
    (line + 1, col.saturating_add(1))
}

/// Where stepping one character back from `offset` lands: the start of the
/// last character of the (leniently decoded) four bytes before it, else one
/// byte back.
pub open spec fn prev_boundary(text: Seq<u8>, offset: int) -> int {
    if offset <= 0 {
        0
    } else {
        let start = if offset >= 4 { offset - 4 } else { 0 };
        let l = lossy_text(text.subrange(start, offset));
        if offset <= text.len() && l.len() > 0 {
            let i = vstd::utf8::encode_utf8(l.drop_last()).len();
            if start + i <= usize::MAX {
                start + i
            } else {
                usize::MAX as int
            }
        } else {
            offset - 1
        }
    }
}

/// Where stepping one character forward from `offset` lands: past the first
/// character of the (leniently decoded) four bytes from it, else one byte
/// on; the end of the document at most.
pub open spec fn next_boundary(text: Seq<u8>, offset: int) -> int {
    let len = text.len() as int;
    if offset >= len {
        len
    } else {
        let end = if len - offset >= 4 { offset + 4 } else { len };
        let l = lossy_text(text.subrange(offset, end));
        if l.len() > 0 {
            let w = vstd::utf8::encode_utf8(seq![l[0]]).len();
            if offset + w <= usize::MAX {
                offset + w
            } else {
                usize::MAX as int
            }
        } else {
            offset + 1
        }
    }
}

/// The caret position one character before `offset`.
pub fn prev_char_boundary(doc: &Document, offset: usize) -> (r: usize)
    requires
        doc.wf(),
    ensures
        r == prev_boundary(doc.text(), offset as int),
{
    if offset == 0 {
        return 0;
    }
    let start = offset.saturating_sub(4);
    if let Ok(bytes) = doc.slice(start, offset) {
        let text = utf8_lossy(bytes.as_slice());
        let chars = chars_of(text.as_str());
        if chars.len() > 0 {
            let ghost l = chars@;
            proof {
                assert(l =~= l.drop_last() + seq![l.last()]);
                lemma_encode_concat(l.drop_last(), seq![l.last()]);
                assert(chars@.subrange(0, chars@.len() - 1) =~= l.drop_last());
            }
            // Reading the byte length brings in that it fits a usize.
            let _n = text.as_str().as_bytes().len();
            let i = utf8_len_of(chars.as_slice(), 0, chars.len() - 1);
            return start.saturating_add(i);
        }
    }
    offset - 1
}

/// The caret position one character after `offset`.
pub fn next_char_boundary(doc: &Document, offset: usize) -> (r: usize)
    requires
        doc.wf(),
    ensures
        r == next_boundary(doc.text(), offset as int),
{
    let len = doc.len();
    if offset >= len {
        return len;
    }
    let end = if len - offset >= 4 { offset + 4 } else { len };
    if let Ok(bytes) = doc.slice(offset, end) {
        let text = utf8_lossy(bytes.as_slice());
        let chars = chars_of(text.as_str());
        if chars.len() > 0 {
            return offset.saturating_add(utf8_width(chars[0]));
        }
    }
    offset + 1
}

/// The index of the first line break in `l`, or its length.
pub open spec fn first_break(l: Seq<char>) -> int
    decreases l.len(),
{
    if l.len() == 0 {
        0
    } else {
        let before = first_break(l.drop_last());
        if before < l.len() - 1 {
            before
        } else if is_break_char(l.last()) {
            l.len() - 1
        } else {
            l.len() as int
        }
    }
}

pub open spec fn min_int(a: int, b: int) -> int {
    if a <= b {
        a
    } else {
        b
    }
}

/// The byte offset of column `col` of the text `start .. end`: past at most
/// `col` characters of its lenient decoding, stopping at a line break, and
/// within the document.
pub open spec fn offset_in_range_of(text: Seq<u8>, start: int, end: int, col: int) -> int {
    if start <= end <= text.len() {
        let l = lossy_text(text.subrange(start, end));
        let k = min_int(col, first_break(l));
        min_int(start + vstd::utf8::encode_utf8(l.take(k)).len(), text.len() as int)
    } else {
        min_int(start + (if end >= start { min_int(col, end - start) } else { 0 }), text.len() as int)
    }
}

proof fn lemma_first_break_step(l: Seq<char>, i: int)
    requires
        0 <= i < l.len(),
        first_break(l.take(i)) == i,
    ensures
        first_break(l.take(i + 1)) == if is_break_char(l[i]) { i } else { i + 1 },
{
    assert(l.take(i + 1).drop_last() =~= l.take(i));
}

proof fn lemma_first_break_extend(l: Seq<char>, i: int, m: int)
    requires
        0 <= i < m <= l.len(),
        first_break(l.take(i)) == i,
        is_break_char(l[i]),
    ensures
        first_break(l.take(m)) == i,
    decreases m - i,
{
    if m == i + 1 {
        lemma_first_break_step(l, i);
    } else {
        lemma_first_break_extend(l, i, m - 1);
        assert(l.take(m).drop_last() =~= l.take(m - 1));
    }
}

/// The byte offset in the document of column `col` of the text `start ..
/// end`.
pub fn offset_in_range(doc: &Document, start: usize, end: usize, col: usize) -> (r: usize)
    requires
        doc.wf(),
    ensures
        r == offset_in_range_of(doc.text(), start as int, end as int, col as int),
{
    let len = doc.len();
    if let Ok(bytes) = doc.slice(start, end) {
        let text = utf8_lossy(bytes.as_slice());
        let chars = chars_of(text.as_str());
        let ghost l = chars@;
        let mut i: usize = 0;
        while i < chars.len() && chars[i] != '\r' && chars[i] != '\n' && i < col
            invariant
                l == chars@,
                i <= l.len(),
                i <= col,
                first_break(l.take(i as int)) == i,
            decreases l.len() - i,
        {
            proof {
                lemma_first_break_step(l, i as int);
            }
            i = i + 1;
        }
        proof {
            let fb = first_break(l);
            assert(l.take(l.len() as int) =~= l);
            if i < l.len() && is_break_char(l[i as int]) {
                lemma_first_break_extend(l, i as int, l.len() as int);
            } else if i == l.len() {
            } else {
                assert(i == col);
                lemma_first_break_step(l, i as int);
                if i + 1 < l.len() {
                    lemma_first_break_at_least(l, i as int + 1, l.len() as int);
                }
            }
            assert(l =~= l.take(i as int) + l.skip(i as int));
            lemma_encode_concat(l.take(i as int), l.skip(i as int));
            assert(chars@.subrange(0, i as int) =~= l.take(i as int));
        }
        // Reading the byte length brings in that it fits a usize.
        let _n = text.as_str().as_bytes().len();
        let byte_off = utf8_len_of(chars.as_slice(), 0, i);
        let at = start.saturating_add(byte_off);
        return if at < len { at } else { len };
    }
    let span = end.saturating_sub(start);
    let step = if col < span { col } else { span };
    let at = start + step;
    if at < len { at } else { len }
}

/// Once `first_break` of a prefix has reached its length `i`, it stays at
/// least `i` for longer prefixes.
proof fn lemma_first_break_at_least(l: Seq<char>, i: int, m: int)
    requires
        0 <= i <= m <= l.len(),
        first_break(l.take(i)) == i,
    ensures
        first_break(l.take(m)) >= i,
    decreases m - i,
{
    if m > i {
        lemma_first_break_at_least(l, i, m - 1);
        assert(l.take(m).drop_last() =~= l.take(m - 1));
        lemma_first_break_le(l.take(m - 1));
    }
}

proof fn lemma_first_break_le(l: Seq<char>)
    ensures
        0 <= first_break(l) <= l.len(),
    decreases l.len(),
{
    if l.len() > 0 {
        lemma_first_break_le(l.drop_last());
    }
}

/// The bytes of line `i`, less one for its line break: from its start to
/// the next line's start (or the end of the document).
pub open spec fn line_width(starts: Seq<usize>, len: int, i: int) -> int {
    let start = starts[i] as int;
    let end = if i + 1 < starts.len() { starts[i + 1] as int } else { len };
    let n = if end >= start { end - start } else { 0 };
    if n > 0 {
        n - 1
    } else {
        0
    }
}

/// The greatest `line_width` among the first `k` lines.
pub open spec fn widest_line(starts: Seq<usize>, len: int, k: int) -> int
    decreases k,
{
    if k <= 0 {
        0
    } else {
        let w = line_width(starts, len, k - 1);
        let before = widest_line(starts, len, k - 1);
        if w > before {
            w
        } else {
            before
        }
    }
}

/// The byte length of the longest line, its line break left out; the
/// horizontal scroll range is measured from it.
pub fn max_line_bytes(doc: &Document) -> (r: usize)
    requires
        doc.wf(),
    ensures
        r == widest_line(doc.line_index().starts(), doc.text().len() as int, doc.line_index().starts().len() as int),
{
    let lines = doc.lines();
    let count = lines.line_count();
    let len = doc.len();
    let mut widest: usize = 0;
    let mut i: usize = 0;
    while i < count
        invariant
            *lines == doc.line_index(),
            count == lines.starts().len(),
            len == doc.text().len(),
            i <= count,
            widest == widest_line(lines.starts(), len as int, i as int),
        decreases count - i,
    {
        let start = match lines.line_start(i) {
            Some(s) => s,
            None => 0,
        };
        let end = match lines.line_start(i + 1) {
            Some(e) => e,
            None => len,
        };
        let mut n = end.saturating_sub(start);
        if n > 0 {
            n = n - 1;
        }
        if n > widest {
            widest = n;
        }
        i = i + 1;
    }
    widest
}

/// How the status bar names a line ending.
pub open spec fn ending_name(e: LineEnding) -> Seq<char> {
    match e {
        LineEnding::Lf => "LF"@,
        LineEnding::CrLf => "CRLF"@,
        LineEnding::Mixed => "Mixed"@,
    }
}

/// The status bar text for the caret at 1-based `line` and `col`.
pub open spec fn status_line(
    line: int,
    col: int,
    encoding: FileEncoding,
    ending: LineEnding,
    word_wrap: bool,
    language: LanguageId,
) -> Seq<char> {
    "Ln "@ + decimal(line as nat) + ", Col "@ + decimal(col as nat) + "  |  "@ + encoding.label_spec() + "  |  "@
        + ending_name(ending) + "  |  "@ + (if word_wrap { "Wrap"@ } else { "No Wrap"@ }) + "  |  "@
        + language.display_name_spec()
}

/// The status bar text: caret line and column, encoding, line ending,
/// wrapping and language.
pub fn status_text(doc: &Document, caret_offset: usize, word_wrap: bool, encoding: FileEncoding, language: LanguageId) -> (r: String)
    requires
        doc.wf(),
    ensures
        ({
            let (line, col) = line_col_of(doc.text(), doc.line_index().starts(), caret_offset as int);
            r@ == status_line(line, col, encoding, doc.ending(), word_wrap, language)
        }),
{
    let (line, col) = line_col_at(doc, caret_offset);
    let ending = match doc.line_ending() {
        LineEnding::Lf => "LF",
        LineEnding::CrLf => "CRLF",
        LineEnding::Mixed => "Mixed",
    };
    let wrap = if word_wrap { "Wrap" } else { "No Wrap" };
    let text = String::from_str("Ln ").concat(decimal_text(line).as_str()).concat(", Col ").concat(
        decimal_text(col).as_str(),
    ).concat("  |  ").concat(encoding.label()).concat("  |  ").concat(ending).concat("  |  ").concat(wrap).concat(
        "  |  ",
    ).concat(language.display_name());
    text
}


/// The text printed for line `line`: its text without the trailing line
/// break, cut to `max_chars` characters when words wrap.
pub open spec fn printed_text(text: Seq<u8>, starts: Seq<usize>, line: int, word_wrap: bool, max_chars: int) -> Seq<
    char,
> {
    let t = without_trailing_breaks(line_text(text, starts, line));
    if word_wrap && t.len() > max_chars {
        t.take(max_chars)
    } else {
        t
    }
}

/// The text printed for line `line` of the document.
pub fn printed_line(doc: &Document, line: usize, word_wrap: bool, max_chars: usize) -> (r: String)
    requires
        doc.wf(),
    ensures
        r@ == printed_text(doc.text(), doc.line_index().starts(), line as int, word_wrap, max_chars as int),
{
    let content = match doc.line_content(line) {
        Ok(c) => c,
        Err(_) => String::new(),
    };
    let trimmed = trim_trailing_breaks(content.as_str());
    let chars = chars_of(trimmed.as_str());
    if word_wrap && chars.len() > max_chars {
        let mut kept: Vec<char> = Vec::new();
        let mut i: usize = 0;
        while i < max_chars
            invariant
                i <= max_chars < chars@.len(),
                kept@ == chars@.take(i as int),
            decreases max_chars - i,
        {
            assert(chars@.take(i + 1) =~= chars@.take(i as int).push(chars@[i as int]));
            kept.push(chars[i]);
            i = i + 1;
        }
        string_from_chars(kept.as_slice())
    } else {
        trimmed
    }
}

} // verus!

use std::path::PathBuf;
use std::sync::Arc;
use vstd::prelude::*;
use vstd::string::*;
use vstd::utf8::{
    is_char_boundary, is_char_boundary_iff_not_is_continuation_byte, is_char_boundary_start_end_of_seq, is_continuation_byte,
    length_of_first_scalar, pop_first_scalar, valid_utf8,
};
use crate::buffer::document::detected_ending;
use crate::buffer::line_index::{feeds_after, has, indexes_lines, is_line_start, strictly_increasing};
use crate::buffer::{Document, LineEnding, LineIndex, PieceTable};
use crate::text::{chars_of, extension_of, is_path_separator, is_utf8, path_extension, path_separator};
use crate::encoding::{
    begins_with, begins_with_any_bom, bom_of, codec_size_ok, decode_to_utf8, decoded, detect_encoding,
    detected_encoding, encode_chunk_from_utf8, encoded, strip_bom, utf8_bom, FileEncoding,
};

verus! {

/// Bytes read or written per step when indexing lines or saving.
pub const INDEX_CHUNK: usize = 8 * 1024 * 1024;

/// A document read from a file, with the encoding it was read in and
/// whether decoding met malformed input.
pub struct OpenedFile {
    pub document: Document,
    pub encoding: FileEncoding,
    pub had_decode_errors: bool,
}

/// The text of a file whose bytes are `bytes`: UTF-8 files are shown as
/// they are (byte order mark left out), others decoded to UTF-8.
pub open spec fn opened_text(bytes: Seq<u8>) -> Seq<u8> {
    decoded(bytes, detected_encoding(bytes)).0
}

/// Opens the file contents `bytes` found at `path`. UTF-8 files keep their
/// bytes shared and get their line index built later, step by step; other
/// encodings are decoded and indexed at once. A file saved in UTF-16 (byte
/// order mark, then the code units of UTF-8 text) opens as that encoding
/// with that text, unless the code units begin like a byte order mark.
pub fn open_document(bytes: Arc<Vec<u8>>, path: PathBuf) -> (r: OpenedFile)
    requires
        codec_size_ok(bytes@.len() as int),
    ensures
        r.document.wf(),
        r.encoding == detected_encoding(bytes@),
        r.document.text() == opened_text(bytes@),
        r.document.ending() == detected_ending(r.document.text()),
        r.document.has_path(),
        r.document.stored_path() == Some(path),
        !r.document.dirty_flag(),
        r.document.undo_list().len() == 0,
        r.document.redo_list().len() == 0,
        (r.encoding == FileEncoding::Utf8 || r.encoding == FileEncoding::Utf8Bom) ==> {
            &&& !r.had_decode_errors
            &&& r.document.line_index().starts() == seq![0usize]
            &&& r.document.line_index().scanned() == 0
            &&& !r.document.line_index().completed()
        },
        !(r.encoding == FileEncoding::Utf8 || r.encoding == FileEncoding::Utf8Bom) ==> {
            &&& r.had_decode_errors == decoded(bytes@, r.encoding).1
            &&& indexes_lines(r.document.line_index().starts(), r.document.text())
            &&& r.document.line_index().completed()
        },
        forall|text: Seq<u8>, enc: FileEncoding|
            (enc == FileEncoding::Utf16Le || enc == FileEncoding::Utf16Be) && is_utf8(text) && !begins_with_any_bom(
                #[trigger] encoded(text, enc),
            ) && bytes@ == bom_of(enc) + encoded(text, enc) ==> {
                &&& r.encoding == enc
                &&& r.document.text() == text
                &&& !r.had_decode_errors
            },
{
    proof {
        assert forall|text: Seq<u8>, enc: FileEncoding|
            (enc == FileEncoding::Utf16Le || enc == FileEncoding::Utf16Be) && is_utf8(text) && !begins_with_any_bom(
                #[trigger] encoded(text, enc),
            ) && bytes@ == bom_of(enc) + encoded(text, enc) implies detected_encoding(bytes@) == enc by {
            let b = bytes@;
            assert(b.take(2) =~= bom_of(enc));
            assert(b[0] == bom_of(enc)[0]);
            assert(!begins_with(b, utf8_bom())) by {
                if begins_with(b, utf8_bom()) {
                    assert(b.take(3)[0] == b[0]);
                }
            }
        }
    }
    let encoding = detect_encoding(bytes.as_slice());
    match encoding {
        FileEncoding::Utf8 | FileEncoding::Utf8Bom => {
            let bom_len: usize = match encoding {
                FileEncoding::Utf8Bom => 3,
                _ => 0,
            };
            let payload = strip_bom(bytes.as_slice(), encoding);
            let line_ending = LineEnding::detect(payload);
            let ghost text = payload@;
            let shared = bytes.clone();
            assert(shared@ == bytes@);
            let table = PieceTable::from_utf8_mmap_range(shared, bom_len);
            assert(text == decoded(bytes@, encoding).0);
            assert(table@ =~= text);
            let mut lines = LineIndex::new();
            lines.mark_incomplete();
            let mut document = Document::from_table(table, lines, line_ending);
            document.set_path(path);
            proof {
                document.lemma_text_is_table();
            }
            OpenedFile { document, encoding, had_decode_errors: false }
        },
        _ => {
            let (utf8, had_decode_errors) = decode_to_utf8(bytes.as_slice(), encoding);
            let line_ending = LineEnding::detect(utf8.as_slice());
            let table = PieceTable::from_utf8_bytes(utf8);
            let all = match table.slice(0, table.len()) {
                Ok(all) => all,
                Err(_) => Vec::new(),
            };
            let lines = LineIndex::from_bytes(all.as_slice());
            proof {
                assert(all@ == table@);
                crate::buffer::line_index::lemma_indexed_last_start(lines.starts(), table@);
            }
            let ghost table_view = table@;
            let mut document = Document::from_table(table, lines, line_ending);
            document.set_path(path);
            proof {
                document.lemma_text_is_table();
                assert(document.text() == table_view);
            }
            OpenedFile { document, encoding, had_decode_errors }
        },
    }
}

/// The starts of `starts` are exactly the line starts of `text` up to
/// offset `k`.
pub open spec fn indexes_prefix(starts: Seq<usize>, text: Seq<u8>, k: int) -> bool {
    &&& strictly_increasing(starts)
    &&& forall|p: int| has(starts, p) <==> (p <= k && is_line_start(text, p))
}

/// Indexing a prefix that reaches the end of the text indexes the text.
pub proof fn lemma_prefix_to_end(starts: Seq<usize>, text: Seq<u8>)
    requires
        indexes_prefix(starts, text, text.len() as int),
    ensures
        indexes_lines(starts, text),
{
}

proof fn lemma_scan_extends_prefix(starts: Seq<usize>, text: Seq<u8>, base: int, end: int)
    requires
        indexes_prefix(starts, text, base),
        0 <= base <= end <= text.len(),
        end <= usize::MAX,
        strictly_increasing(starts + feeds_after(text.subrange(base, end), base)),
    ensures
        indexes_prefix(starts + feeds_after(text.subrange(base, end), base), text, end),
{
    let chunk = text.subrange(base, end);
    let f = feeds_after(chunk, base);
    let s = starts + f;
    crate::buffer::line_index::lemma_feeds_after(chunk, base);
    assert forall|p: int| has(s, p) <==> (p <= end && is_line_start(text, p)) by {
        if has(s, p) {
            let i = choose|i: int| 0 <= i < s.len() && s[i] == p;
            if i < starts.len() {
                assert(has(starts, p));
            } else {
                assert(f[i - starts.len()] == p);
                assert(has(f, p));
                assert(chunk[p - base - 1] == text[p - 1]);
            }
        }
        if p <= end && is_line_start(text, p) {
            if p <= base {
                assert(has(starts, p));
                let i = choose|i: int| 0 <= i < starts.len() && starts[i] == p;
                assert(s[i] == p);
            } else {
                assert(chunk[p - base - 1] == text[p - 1]);
                assert(has(f, p));
                let i = choose|i: int| 0 <= i < f.len() && f[i] == p;
                assert(s[starts.len() + i] == p);
            }
        }
    }
}

/// Indexes the next chunk of a document whose line index is being built,
/// and gives whether the index is now complete. Each call that does not
/// complete the index moves the scan on, within the unchanged text, so
/// calling it until it answers `true` ends, with every line start of the
/// text recorded when the index started out as one of the scanned prefix.
pub fn build_line_index_incremental(document: &mut Document) -> (r: bool)
    requires
        old(document).wf(),
        old(document).line_index().completed() || old(document).line_index().last_start() <= old(
            document,
        ).line_index().scanned(),
    ensures
        final(document).wf(),
        final(document).piece_table() == old(document).piece_table(),
        final(document).undo_list() == old(document).undo_list(),
        final(document).redo_list() == old(document).redo_list(),
        final(document).dirty_flag() == old(document).dirty_flag(),
        final(document).has_path() == old(document).has_path(),
        final(document).ending() == old(document).ending(),
        r == final(document).line_index().completed(),
        old(document).line_index().completed() ==> *final(document) == *old(document),
        !old(document).line_index().completed() ==> {
            let text = old(document).text();
            let base = old(document).line_index().scanned() as int;
            let end = if base + INDEX_CHUNK < text.len() { base + INDEX_CHUNK } else { text.len() as int };
            &&& final(document).line_index().starts() == old(document).line_index().starts() + feeds_after(
                text.subrange(base, end),
                base,
            )
            &&& final(document).line_index().scanned() == end
            &&& r == (end >= text.len())
        },
        !old(document).line_index().completed() && indexes_prefix(
            old(document).line_index().starts(),
            old(document).text(),
            old(document).line_index().scanned() as int,
        ) ==> {
            &&& indexes_prefix(
                final(document).line_index().starts(),
                final(document).text(),
                final(document).line_index().scanned() as int,
            )
            &&& r ==> indexes_lines(final(document).line_index().starts(), final(document).text())
        },
        !old(document).line_index().completed() && !r ==> final(document).line_index().scanned()
            == old(document).line_index().scanned() + INDEX_CHUNK && final(document).line_index().scanned()
            < final(document).text().len(),
{
    if document.lines().is_complete() {
        return true;
    }
    let ghost text = document.text();
    let len = document.len();
    let start = document.lines().scan_cursor();
    if start >= len {
        let lines = document.lines_mut();
        lines.mark_complete();
        proof {
            assert(document.line_index().starts() == old(document).line_index().starts());
            assert(text.subrange(start as int, len as int) =~= Seq::<u8>::empty());
            assert(old(document).line_index().starts() + feeds_after(Seq::<u8>::empty(), start as int) =~= old(document).line_index().starts());
            if indexes_prefix(old(document).line_index().starts(), text, start as int) {
                lemma_prefix_to_end(document.line_index().starts(), text);
            }
            old(document).lemma_text_is_table();
            document.lemma_text_is_table();
            Document::lemma_wf_new_index(*old(document), *document);
        }
        return true;
    }
    let end = if INDEX_CHUNK < len - start { start + INDEX_CHUNK } else { len };
    if let Ok(chunk) = document.slice(start, end) {
        let lines = document.lines_mut();
        lines.scan_append(chunk.as_slice(), start);
    }
    let done = end >= len;
    if done {
        let lines = document.lines_mut();
        lines.mark_complete();
    }
    proof {
        let f = feeds_after(text.subrange(start as int, end as int), start as int);
        crate::buffer::line_index::lemma_feeds_after(text.subrange(start as int, end as int), start as int);
        assert(document.line_index().starts() == old(document).line_index().starts() + f);
        if f.len() > 0 {
            assert(document.line_index().last_start() == f[f.len() - 1]);
        }
        old(document).lemma_text_is_table();
        document.lemma_text_is_table();
        Document::lemma_wf_new_index(*old(document), *document);
        if indexes_prefix(old(document).line_index().starts(), text, start as int) {
            lemma_scan_extends_prefix(old(document).line_index().starts(), text, start as int, end as int);
            if done {
                lemma_prefix_to_end(document.line_index().starts(), text);
            }
        }
    }
    done
}

/// One step of building a document's line index, and whether the index is
/// now complete. While the recorded lines end at or before the point the
/// scan has reached, this is `build_line_index_incremental`. Once edits
/// have recorded lines past it, scanning on would record them out of
/// order: the index is then rebuilt from the whole text.
pub fn step_line_index(document: &mut Document) -> (r: bool)
    requires
        old(document).wf(),
    ensures
        final(document).wf(),
        final(document).piece_table() == old(document).piece_table(),
        final(document).undo_list() == old(document).undo_list(),
        final(document).redo_list() == old(document).redo_list(),
        final(document).dirty_flag() == old(document).dirty_flag(),
        final(document).has_path() == old(document).has_path(),
        final(document).ending() == old(document).ending(),
        r == final(document).line_index().completed(),
        old(document).line_index().completed() ==> *final(document) == *old(document),
        !old(document).line_index().completed() && old(document).line_index().last_start() <= old(
            document,
        ).line_index().scanned() ==> {
            let text = old(document).text();
            let base = old(document).line_index().scanned() as int;
            let end = if base + INDEX_CHUNK < text.len() { base + INDEX_CHUNK } else { text.len() as int };
            &&& final(document).line_index().starts() == old(document).line_index().starts() + feeds_after(
                text.subrange(base, end),
                base,
            )
            &&& final(document).line_index().scanned() == end
            &&& r == (end >= text.len())
        },
        !old(document).line_index().completed() && old(document).line_index().last_start() > old(
            document,
        ).line_index().scanned() ==> {
            &&& indexes_lines(final(document).line_index().starts(), final(document).text())
            &&& final(document).line_index().scanned() == final(document).text().len()
            &&& r
        },
{
    let lines = document.lines();
    let count = lines.line_count();
    let last = match lines.line_start(count - 1) {
        Some(s) => s,
        None => 0,
    };
    if !lines.is_complete() && last > lines.scan_cursor() {
        let len = document.len();
        let all = match document.slice(0, len) {
            Ok(a) => a,
            Err(_) => {
                return build_line_index_incremental(document);
            },
        };
        let index = LineIndex::from_bytes(all.as_slice());
        let ghost text = document.text();
        proof {
            assert(all@ =~= text);
            let st = index.starts();
            assert(has(st, st.last() as int));
            assert(is_line_start(text, st.last() as int));
        }
        let lines = document.lines_mut();
        *lines = index;
        proof {
            old(document).lemma_text_is_table();
            document.lemma_text_is_table();
            Document::lemma_wf_new_index(*old(document), *document);
        }
        return true;
    }
    build_line_index_incremental(document)
}

/// The byte order mark a file saved in `encoding` starts with.
pub fn bom_bytes(encoding: FileEncoding) -> (r: Vec<u8>)
    ensures
        r@ == bom_of(encoding),
{
    let mut out: Vec<u8> = Vec::new();
    if encoding.write_bom() {
        out.push(0xEF);
        out.push(0xBB);
        out.push(0xBF);
    } else {
        match encoding {
            FileEncoding::Utf16Le => {
                out.push(0xFF);
                out.push(0xFE);
            },
            FileEncoding::Utf16Be => {
                out.push(0xFE);
                out.push(0xFF);
            },
            _ => {},
        }
    }
    proof {
        assert(out@ =~= bom_of(encoding));
    }
    out
}

/// A file saved in UTF-8 with a byte order mark opens with the saved text,
/// whatever the text.
pub proof fn lemma_utf8_bom_save_then_open(text: Seq<u8>)
    ensures
        detected_encoding(bom_of(FileEncoding::Utf8Bom) + encoded(text, FileEncoding::Utf8Bom)) == FileEncoding::Utf8Bom,
        opened_text(bom_of(FileEncoding::Utf8Bom) + encoded(text, FileEncoding::Utf8Bom)) == text,
{
    let file = bom_of(FileEncoding::Utf8Bom) + text;
    assert(file.subrange(0, 3) =~= seq![0xEFu8, 0xBBu8, 0xBFu8]);
    assert(file.skip(3) =~= text);
}

/// Decoding what UTF-8 saving writes (byte order mark included) gives the
/// text back.
pub proof fn lemma_utf8_encode_then_decode(text: Seq<u8>, encoding: FileEncoding)
    requires
        encoding == FileEncoding::Utf8 || encoding == FileEncoding::Utf8Bom,
    ensures
        decoded(bom_of(encoding) + encoded(text, encoding), encoding).0 == text,
{
    let file = bom_of(encoding) + text;
    if encoding == FileEncoding::Utf8Bom {
        assert(file.subrange(0, 3) =~= seq![0xEFu8, 0xBBu8, 0xBFu8]);
        assert(file.skip(3) =~= text);
    } else {
        assert(file =~= text);
    }
}

/// `e`, moved back over at most `steps` bytes of `text` while the byte at
/// it continues a UTF-8 character (lies in `0x80 ..= 0xBF`).
pub open spec fn backed_off(text: Seq<u8>, e: int, steps: nat) -> int
    decreases steps,
{
    if steps > 0 && 0 <= e < text.len() && is_continuation_byte(text[e]) {
        backed_off(text, e - 1, (steps - 1) as nat)
    } else {
        e
    }
}

/// The end of the save chunk of `text` that starts at `pos`: `INDEX_CHUNK`
/// bytes on, moved back so that it does not split a character (a UTF-8
/// character has at most three continuation bytes), or the end of the text.
pub open spec fn save_chunk_end(text: Seq<u8>, pos: int) -> int {
    if pos + INDEX_CHUNK < text.len() {
        backed_off(text, pos + INDEX_CHUNK, 3)
    } else {
        text.len() as int
    }
}

/// In valid UTF-8, one of any four offsets in a row up to the end begins
/// a character (a character takes at most four bytes).
proof fn lemma_boundary_near(bytes: Seq<u8>, e: int)
    requires
        valid_utf8(bytes),
        0 <= e <= bytes.len(),
    ensures
        exists|b: int| e - 3 <= b <= e && #[trigger] is_char_boundary(bytes, b),
    decreases bytes.len(),
{
    if e <= 3 {
        assert(is_char_boundary(bytes, 0));
    } else {
        let l = length_of_first_scalar(bytes);
        let tail = pop_first_scalar(bytes);
        assert(1 <= l <= 4 && l <= bytes.len());
        assert(tail.len() == bytes.len() - l);
        lemma_boundary_near(tail, e - l);
        let b = choose|b: int| e - l - 3 <= b <= e - l && #[trigger] is_char_boundary(tail, b);
        assert(0 <= b);
        assert(is_char_boundary(bytes, b + l));
    }
}

/// Moving back from `e` stops at the first byte that does not continue a
/// character, which is no earlier than such a byte at `b`.
proof fn lemma_backed_off_stops(text: Seq<u8>, e: int, steps: nat, b: int)
    requires
        e - steps <= b <= e,
        0 <= b < text.len(),
        e < text.len(),
        !is_continuation_byte(text[b]),
    ensures
        b <= backed_off(text, e, steps) <= e,
        !is_continuation_byte(text[backed_off(text, e, steps)]),
    decreases steps,
{
    if steps > 0 && 0 <= e < text.len() && is_continuation_byte(text[e]) {
        lemma_backed_off_stops(text, e - 1, (steps - 1) as nat, b);
    }
}

/// The bytes to write for the chunk of the document that starts at `pos`,
/// in `encoding`, and where the next chunk starts.
pub fn save_chunk(document: &Document, pos: usize, encoding: FileEncoding) -> (r: (Vec<u8>, usize))
    requires
        document.wf(),
        pos < document.text().len(),
    ensures
        r.1 == save_chunk_end(document.text(), pos as int),
        pos < r.1 <= document.text().len(),
        r.0@ == encoded(document.text().subrange(pos as int, r.1 as int), encoding),
        is_utf8(document.text()) ==> is_char_boundary(document.text(), r.1 as int),
{
    let len = document.len();
    let ghost text = document.text();
    let mut end = if INDEX_CHUNK < len - pos { pos + INDEX_CHUNK } else { len };
    if end < len {
        let ghost raw = end as int;
        let mut steps: usize = 0;
        while steps < 3
            invariant
                document.wf(),
                text == document.text(),
                len == text.len(),
                pos + INDEX_CHUNK == raw,
                raw < len,
                end == raw - steps,
                steps <= 3,
                backed_off(text, raw, 3) == backed_off(text, end as int, (3 - steps) as nat),
            ensures
                backed_off(text, raw, 3) == end,
                raw - 3 <= end <= raw,
            decreases 3 - steps,
        {
            let b = match document.slice(end, end + 1) {
                Ok(v) => v,
                Err(_) => Vec::new(),
            };
            if b.len() == 1 && 0x80 <= b[0] && b[0] < 0xC0 {
                end = end - 1;
                steps = steps + 1;
            } else {
                assert(b@ == text.subrange(end as int, end + 1));
                assert(b@[0] == text[end as int]);
                assert(backed_off(text, end as int, (3 - steps) as nat) == end);
                break;
            }
        }
        proof {
            if is_utf8(text) {
                lemma_boundary_near(text, raw);
                let b = choose|b: int| raw - 3 <= b <= raw && #[trigger] is_char_boundary(text, b);
                is_char_boundary_iff_not_is_continuation_byte(text, b);
                lemma_backed_off_stops(text, raw, 3, b);
                is_char_boundary_iff_not_is_continuation_byte(text, end as int);
            }
        }
    } else {
        proof {
            if is_utf8(text) {
                is_char_boundary_start_end_of_seq(text);
            }
        }
    }
    let chunk = match document.slice(pos, end) {
        Ok(c) => c,
        Err(_) => Vec::new(),
    };
    (encode_chunk_from_utf8(chunk.as_slice(), encoding), end)
}

/// What `Path::with_extension` gives for the path written `path` with the
/// extension `ext`, as text.
pub uninterp spec fn with_extension_of(path: Seq<char>, ext: Seq<char>) -> Seq<char>;

/// `Path::new(path).with_extension(extension)`, as text (a path built from
/// text is text). std panics when the extension holds a path separator, so
/// the extension holds none.
#[verifier::external_body]
fn path_with_extension(path: &str, extension: &str) -> (r: String)
    requires
        forall|i: int| 0 <= i < extension@.len() ==> !is_path_separator(#[trigger] extension@[i]),
    ensures
        r@ == with_extension_of(path@, extension@),
{
    std::path::Path::new(path).with_extension(extension).to_string_lossy().into_owned()
}

/// The extension of the temporary file a save of a file with extension
/// `ext` writes first: that extension (or "txt") followed by ".tmp".
pub open spec fn temp_extension_of(ext: Option<Seq<char>>) -> Seq<char> {
    let base = match ext {
        Some(e) => e,
        None => "txt"@,
    };
    base + ".tmp"@
}

/// The extension of the temporary file a save writes first: the file's own
/// extension (or "txt") followed by ".tmp".
pub fn temp_extension(ext: Option<&str>) -> (r: String)
    ensures
        r@ == temp_extension_of(
            match ext {
                Some(e) => Some(e@),
                None => None,
            },
        ),
{
    let base = match ext {
        Some(e) => e,
        None => "txt",
    };
    String::from_str(base).concat(".tmp")
}

/// No character of `s` separates path components; where one does, it is
/// `/` or a backslash.
fn no_path_separator(s: &str) -> (r: bool)
    ensures
        r == forall|i: int| 0 <= i < s@.len() ==> !is_path_separator(#[trigger] s@[i]),
        !r ==> exists|i: int| 0 <= i < s@.len() && #[trigger] is_path_separator(s@[i]) && (s@[i] == '/' || s@[i] == '\\'),
{
    let chars = chars_of(s);
    let mut i: usize = 0;
    while i < chars.len()
        invariant
            chars@ == s@,
            i <= chars@.len(),
            forall|k: int| 0 <= k < i ==> !is_path_separator(#[trigger] s@[k]),
        decreases chars@.len() - i,
    {
        if path_separator(chars[i]) {
            assert(is_path_separator(s@[i as int]));
            return false;
        }
        i = i + 1;
    }
    true
}

/// The path of the temporary file a save of the file written `path` writes
/// before replacing it: same place and name, its extension (or "txt")
/// followed by ".tmp".
pub fn temp_save_path(path: &str) -> (r: String)
    ensures
        r@ == with_extension_of(path@, temp_extension_of(extension_of(path@))),
{
    let own = path_extension(path);
    let ext = temp_extension(own);
    if no_path_separator(ext.as_str()) {
        path_with_extension(path, ext.as_str())
    } else {
        proof {
            reveal_strlit("txt");
            reveal_strlit(".tmp");
            let t = ext@;
            let i = choose|i: int| 0 <= i < t.len() && #[trigger] is_path_separator(t[i]) && (t[i] == '/' || t[i] == '\\');
            let base = match own {
                Some(e) => e@,
                None => "txt"@,
            };
            assert(t == base + ".tmp"@);
            if i < base.len() {
                assert(t[i] == base[i]);
                if own is None {
                    assert(("txt"@)[i] == t[i]);
                }
            } else {
                assert(t[i] == (".tmp"@)[i - base.len()]);
            }
            assert(false);
        }
        String::new()
    }
}

} // verus!

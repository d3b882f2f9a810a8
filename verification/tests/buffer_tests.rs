use fast_notepad::buffer::document::apply_line_ending;
use fast_notepad::buffer::{Document, EditAction, LineEnding, LineIndex, PieceTable, ReadError, UndoStack};

#[test]
fn counts_lines() {
    let index = LineIndex::from_bytes(b"a\nb\nc");
    assert_eq!(index.line_count(), 3);
    assert_eq!(index.line_start(0), Some(0));
    assert_eq!(index.line_start(1), Some(2));
    assert_eq!(index.line_start(2), Some(4));
}

#[test]
fn insert_updates_lines() {
    let mut index = LineIndex::from_bytes(b"abc");
    index.apply_insert(1, b"\nX\n");
    assert_eq!(index.line_count(), 3);
    assert_eq!(index.line_start(0), Some(0));
    assert_eq!(index.line_start(1), Some(2));
    assert_eq!(index.line_start(2), Some(4));
}

#[test]
fn delete_updates_lines() {
    let mut index = LineIndex::from_bytes(b"a\nb\nc");
    index.apply_delete(1, b"\nb");
    assert_eq!(index.line_count(), 2);
    assert_eq!(index.line_start(0), Some(0));
    assert_eq!(index.line_start(1), Some(2));
}

#[test]
fn deleting_a_line_feed_joins_the_lines() {
    let mut index = LineIndex::from_bytes(b"ab\nc");
    index.apply_delete(2, b"\n");
    assert_eq!(index.line_count(), 1);
    assert_eq!(index.line_start(0), Some(0));
    assert_eq!(index.line_start(1), None);
    let mut index = LineIndex::from_bytes(b"a\n\nb");
    index.apply_delete(1, b"\n");
    assert_eq!(index.line_count(), 2);
    assert_eq!(index.line_start(1), Some(2));
}

#[test]
fn every_edit_can_be_undone() {
    let mut doc = Document::new();
    doc.insert(0, "ab\ncd").unwrap();
    assert!(doc.can_undo());
    doc.delete(1, 4).unwrap();
    assert!(doc.can_undo());
    assert_eq!(doc.lines().line_count(), 1);
    doc.undo().unwrap();
    assert_eq!(doc.slice(0, doc.len()).unwrap(), b"ab\ncd".to_vec());
    assert_eq!(doc.lines().line_count(), 2);
    doc.undo().unwrap();
    assert_eq!(doc.len(), 0);
    assert!(!doc.can_undo());
}

#[test]
fn insert_and_delete_roundtrip() {
    let mut table = PieceTable::from_utf8_bytes(b"hello".to_vec());
    table.insert(5, b" world").unwrap();
    assert_eq!(table.len(), 11);
    assert_eq!(table.slice(0, table.len()).unwrap(), b"hello world");

    let removed = table.delete(5, 11).unwrap();
    assert_eq!(removed, b" world");
    assert_eq!(table.slice(0, table.len()).unwrap(), b"hello");
}

#[test]
fn insert_in_middle_splits_piece() {
    let mut table = PieceTable::from_utf8_bytes(b"abcdef".to_vec());
    table.insert(3, b"123").unwrap();
    assert_eq!(table.slice(0, table.len()).unwrap(), b"abc123def");
    assert!(table.piece_count() >= 2);
}

#[test]
fn delete_spanning_pieces() {
    let mut table = PieceTable::from_utf8_bytes(b"aaa".to_vec());
    table.insert(3, b"bbb").unwrap();
    table.insert(6, b"ccc").unwrap();
    // aaabbbccc: taking out [2, 7) removes "abbbc" and leaves "aacc"
    let removed = table.delete(2, 7).unwrap();
    assert_eq!(removed, b"abbbc");
    assert_eq!(table.slice(0, table.len()).unwrap(), b"aacc");
}

#[test]
fn redo_cleared_on_new_edit() {
    let mut stack = UndoStack::new(100);
    stack.push(EditAction::Insert {
        pos: 0,
        text: b"a".to_vec(),
    });
    let _ = stack.pop_undo();
    stack.push(EditAction::Insert {
        pos: 1,
        text: b"b".to_vec(),
    });
    assert!(!stack.can_redo());
}

#[test]
fn document_edit_undo_redo() {
    let mut doc = Document::new();
    doc.insert(0, "hello").unwrap();
    doc.insert(5, " world").unwrap();
    assert_eq!(doc.slice(0, doc.len()).unwrap(), b"hello world");
    doc.undo().unwrap();
    assert_eq!(doc.slice(0, doc.len()).unwrap(), b"hello");
    doc.redo().unwrap();
    assert_eq!(doc.slice(0, doc.len()).unwrap(), b"hello world");
}

#[test]
fn piece_table_basic() {
    let mut table = PieceTable::from_utf8_bytes(b"abcdef".to_vec());
    table.insert(3, b"123").unwrap();
    assert_eq!(table.slice(0, table.len()).unwrap(), b"abc123def");
    let removed = table.delete(3, 6).unwrap();
    assert_eq!(removed, b"123");
    assert_eq!(table.slice(0, table.len()).unwrap(), b"abcdef");
}

#[test]
fn line_index_from_document_ops() {
    let table = PieceTable::from_utf8_bytes(b"a\nb\nc".to_vec());
    let lines = LineIndex::from_bytes(b"a\nb\nc");
    let mut doc = Document::from_table(table, lines, LineEnding::Lf);
    doc.insert(1, "\nX").unwrap();
    assert!(doc.lines().line_count() >= 3);
}

fn starts_of(index: &LineIndex) -> Vec<usize> {
    (0..index.line_count()).map(|i| index.line_start(i).unwrap()).collect()
}

fn doc_of(text: &str) -> Document {
    let table = PieceTable::from_utf8_bytes(text.as_bytes().to_vec());
    let lines = LineIndex::from_bytes(text.as_bytes());
    Document::from_table(table, lines, LineEnding::detect(text.as_bytes()))
}

#[test]
fn edited_index_matches_rebuilt_index() {
    let mut doc = doc_of("one\ntwo\nthree");
    doc.insert(4, "new\nline\n").unwrap();
    let text = doc.slice(0, doc.len()).unwrap();
    assert_eq!(text, b"one\nnew\nline\ntwo\nthree");
    assert_eq!(starts_of(doc.lines()), starts_of(&LineIndex::from_bytes(&text)));
    doc.delete(2, 9).unwrap();
    let text = doc.slice(0, doc.len()).unwrap();
    assert_eq!(text, b"onine\ntwo\nthree");
    assert_eq!(starts_of(doc.lines()), starts_of(&LineIndex::from_bytes(&text)));
}

#[test]
fn undo_restores_text_before_each_edit() {
    let mut doc = doc_of("abc\ndef");
    doc.delete(1, 5).unwrap();
    assert_eq!(doc.slice(0, doc.len()).unwrap(), b"aef");
    doc.insert(3, "\nxyz").unwrap();
    assert_eq!(doc.slice(0, doc.len()).unwrap(), b"aef\nxyz");
    doc.undo().unwrap();
    assert_eq!(doc.slice(0, doc.len()).unwrap(), b"aef");
    doc.undo().unwrap();
    assert_eq!(doc.slice(0, doc.len()).unwrap(), b"abc\ndef");
    assert_eq!(starts_of(doc.lines()), vec![0, 4]);
    assert!(!doc.can_undo());
    assert!(doc.can_redo());
    doc.redo().unwrap();
    doc.redo().unwrap();
    assert_eq!(doc.slice(0, doc.len()).unwrap(), b"aef\nxyz");
    assert!(!doc.can_redo());
}

#[test]
fn undo_with_empty_history_changes_nothing() {
    let mut doc = doc_of("text");
    assert!(doc.undo().is_ok());
    assert!(doc.redo().is_ok());
    assert_eq!(doc.slice(0, doc.len()).unwrap(), b"text");
}

#[test]
fn out_of_range_edits_are_refused() {
    let mut doc = doc_of("abc");
    assert_eq!(doc.insert(4, "x"), Err(ReadError::OutOfBounds));
    assert_eq!(doc.delete(2, 5), Err(ReadError::OutOfBounds));
    assert_eq!(doc.delete(2, 1), Err(ReadError::OutOfBounds));
    assert_eq!(doc.slice(1, 9), Err(ReadError::OutOfBounds));
    assert_eq!(doc.slice(0, doc.len()).unwrap(), b"abc");
    assert!(!doc.is_dirty());
}

#[test]
fn undo_of_split_character_reports_invalid_utf8() {
    let mut doc = doc_of("a\u{e9}b");
    doc.delete(1, 2).unwrap();
    assert_eq!(doc.undo(), Err(ReadError::InvalidUtf8));
}

#[test]
fn line_content_reads_lines_leniently() {
    let table = PieceTable::from_utf8_bytes(vec![b'o', b'k', b'\n', 0xFF, b'x']);
    let lines = LineIndex::from_bytes(&[b'o', b'k', b'\n', 0xFF, b'x']);
    let doc = Document::from_table(table, lines, LineEnding::Lf);
    assert_eq!(doc.line_content(0).unwrap(), "ok\n");
    assert_eq!(doc.line_content(1).unwrap(), "\u{fffd}x");
}

#[test]
fn slice_str_refuses_invalid_utf8() {
    let table = PieceTable::from_utf8_bytes(vec![b'a', 0xFF]);
    assert_eq!(table.slice_str(0, 1).unwrap(), "a");
    assert_eq!(table.slice_str(0, 2), Err(ReadError::InvalidUtf8));
}

#[test]
fn line_of_offset_finds_enclosing_line() {
    let index = LineIndex::from_bytes(b"ab\ncd\n\nef");
    assert_eq!(index.line_of_offset(0), 0);
    assert_eq!(index.line_of_offset(2), 0);
    assert_eq!(index.line_of_offset(3), 1);
    assert_eq!(index.line_of_offset(6), 2);
    assert_eq!(index.line_of_offset(7), 3);
    assert_eq!(index.line_of_offset(100), 3);
}

#[test]
fn line_ending_detection() {
    assert_eq!(LineEnding::detect(b"a\r\nb\r\n"), LineEnding::CrLf);
    assert_eq!(LineEnding::detect(b"a\nb"), LineEnding::Lf);
    assert_eq!(LineEnding::detect(b"a\r\nb\n"), LineEnding::Mixed);
    assert_eq!(LineEnding::detect(b"plain"), LineEnding::Lf);
    assert_eq!(LineEnding::CrLf.as_bytes(), b"\r\n");
    assert_eq!(LineEnding::Mixed.as_bytes(), b"\n");
}

#[test]
fn line_endings_applied_to_pasted_text() {
    assert_eq!(apply_line_ending("a\r\nb\rc\nd", LineEnding::Lf), "a\nb\nc\nd");
    assert_eq!(apply_line_ending("a\r\nb\rc\nd", LineEnding::CrLf), "a\r\nb\r\nc\r\nd");
    assert_eq!(apply_line_ending("\r\r\n", LineEnding::Mixed), "\n\n");
}

#[test]
fn undo_history_is_bounded() {
    let mut stack = UndoStack::new(2);
    for i in 0..3 {
        stack.push(EditAction::Insert { pos: i, text: b"x".to_vec() });
    }
    assert!(stack.pop_undo().is_some());
    assert!(stack.pop_undo().is_some());
    assert!(stack.pop_undo().is_none());
    assert!(stack.can_redo());
    stack.clear();
    assert!(!stack.can_redo());
    assert!(!stack.can_undo());
}

#[test]
fn pieces_join_to_the_text() {
    let mut table = PieceTable::from_utf8_bytes(b"abc".to_vec());
    table.insert(1, b"XY").unwrap();
    let joined: Vec<u8> = table.iter_pieces().into_iter().flat_map(|p| p.unwrap()).collect();
    assert_eq!(joined, b"aXYbc");
    assert_eq!(table.piece_count(), 3);
}

#[test]
fn scanning_in_pieces_indexes_as_scanning_whole() {
    let whole = b"ab\ncd\ne\n\nf";
    let mut index = LineIndex::new();
    index.scan_append(&whole[..4], 0);
    index.scan_append(&whole[4..], 4);
    let fresh = LineIndex::from_bytes(whole);
    assert_eq!(index.line_count(), fresh.line_count());
    for k in 0..=fresh.line_count() {
        assert_eq!(index.line_start(k), fresh.line_start(k));
    }
    assert_eq!(index.scan_cursor(), whole.len());
}

#[test]
fn inserting_inside_a_piece_adds_two_pieces() {
    let mut table = PieceTable::from_utf8_bytes(b"abcdef".to_vec());
    assert_eq!(table.piece_count(), 1);
    table.insert(3, b"123").unwrap();
    assert_eq!(table.piece_count(), 3);
    table.insert(0, b"").unwrap();
    assert_eq!(table.piece_count(), 3);
}

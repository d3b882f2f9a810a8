use fast_notepad::buffer::{Document, LineEnding, LineIndex, PieceTable};
use fast_notepad::view::{
    find_bytes, find_next, line_col_at, max_line_bytes, next_char_boundary, offset_in_range, prev_char_boundary,
    replace_all, replace_next, Caret, SEARCH_CHUNK,
};

fn doc_of(bytes: &[u8]) -> Document {
    let table = PieceTable::from_utf8_bytes(bytes.to_vec());
    let lines = LineIndex::from_bytes(bytes);
    Document::from_table(table, lines, LineEnding::Lf)
}

#[test]
fn finds_across_chunks() {
    let mut text = "a".repeat(100);
    text.push_str("needle");
    text.push_str(&"b".repeat(100));
    let table = PieceTable::from_utf8_bytes(text.into_bytes());
    let lines = LineIndex::from_bytes(&table.slice(0, table.len()).unwrap());
    let doc = Document::from_table(table, lines, LineEnding::Lf);
    let found = find_next(&doc, "needle", 0, true).unwrap();
    assert_eq!(&doc.slice(found.0, found.1).unwrap(), b"needle");
}

#[test]
fn line_col_basic() {
    let doc = doc_of(b"ab\ncd");
    assert_eq!(line_col_at(&doc, 0), (1, 1));
    assert_eq!(line_col_at(&doc, 4), (2, 2));
}

#[test]
fn replace_all_works() {
    let mut doc = doc_of(b"foo bar foo");
    let n = replace_all(&mut doc, "foo", "baz", true, 100);
    assert_eq!(n, 2);
    assert_eq!(doc.slice(0, doc.len()).unwrap(), b"baz bar baz");
}

#[test]
fn match_straddling_a_window_boundary_is_found() {
    let mut text = vec![b'x'; SEARCH_CHUNK - 3];
    text.extend_from_slice(b"needle");
    text.extend_from_slice(&vec![b'y'; 10]);
    let doc = doc_of(&text);
    assert_eq!(find_next(&doc, "needle", 0, true), Some((SEARCH_CHUNK - 3, SEARCH_CHUNK + 3)));
    assert_eq!(find_next(&doc, "needle", SEARCH_CHUNK - 2, true), None);
}

#[test]
fn search_starts_at_from_and_finds_the_first_match() {
    let doc = doc_of(b"ab ab ab");
    assert_eq!(find_next(&doc, "ab", 0, true), Some((0, 2)));
    assert_eq!(find_next(&doc, "ab", 1, true), Some((3, 5)));
    assert_eq!(find_next(&doc, "ab", 7, true), None);
    assert_eq!(find_next(&doc, "ab", 100, true), None);
    assert_eq!(find_next(&doc, "", 0, true), None);
}

#[test]
fn case_insensitive_search_lowers_both_sides() {
    let doc = doc_of(b"Hello WORLD");
    assert_eq!(find_next(&doc, "world", 0, true), None);
    assert_eq!(find_next(&doc, "world", 0, false), Some((6, 11)));
    assert_eq!(find_next(&doc, "HELLO", 0, false), Some((0, 5)));
}

#[test]
fn replace_next_replaces_one_match() {
    let mut doc = doc_of(b"one two one");
    assert_eq!(replace_next(&mut doc, "one", "three", 1, true), Some((8, 13)));
    assert_eq!(doc.slice(0, doc.len()).unwrap(), b"one two three");
    assert_eq!(replace_next(&mut doc, "four", "x", 0, true), None);
    doc.undo().unwrap();
    doc.undo().unwrap();
    assert_eq!(doc.slice(0, doc.len()).unwrap(), b"one two one");
}

#[test]
fn replace_all_respects_the_limit_and_skips_inserted_text() {
    let mut doc = doc_of(b"aaa");
    assert_eq!(replace_all(&mut doc, "a", "aa", true, 2), 2);
    assert_eq!(doc.slice(0, doc.len()).unwrap(), b"aaaaa");
    let mut doc = doc_of(b"aaa");
    assert_eq!(replace_all(&mut doc, "a", "aa", true, 100), 3);
    assert_eq!(doc.slice(0, doc.len()).unwrap(), b"aaaaaa");
    assert_eq!(replace_all(&mut doc, "", "x", true, 100), 0);
}

#[test]
fn find_bytes_first_occurrence() {
    assert_eq!(find_bytes(b"abcabc", b"ca"), Some(2));
    assert_eq!(find_bytes(b"abc", b""), None);
    assert_eq!(find_bytes(b"ab", b"abc"), None);
    assert_eq!(find_bytes(b"abc", b"abc"), Some(0));
}

#[test]
fn columns_count_characters() {
    let doc = doc_of("x\r\nпр\n".as_bytes());
    assert_eq!(line_col_at(&doc, 1), (1, 2));
    assert_eq!(line_col_at(&doc, 2), (1, 2));
    assert_eq!(line_col_at(&doc, 3), (2, 1));
    assert_eq!(line_col_at(&doc, 7), (2, 3));
    assert_eq!(line_col_at(&doc, 8), (3, 1));
    assert_eq!(line_col_at(&doc, 20), (3, 13));
}

#[test]
fn stepping_over_characters() {
    let doc = doc_of("aпb".as_bytes());
    assert_eq!(next_char_boundary(&doc, 0), 1);
    assert_eq!(next_char_boundary(&doc, 1), 3);
    assert_eq!(next_char_boundary(&doc, 4), 4);
    assert_eq!(next_char_boundary(&doc, 9), 4);
    assert_eq!(prev_char_boundary(&doc, 4), 3);
    assert_eq!(prev_char_boundary(&doc, 3), 1);
    assert_eq!(prev_char_boundary(&doc, 1), 0);
    assert_eq!(prev_char_boundary(&doc, 0), 0);
    assert_eq!(prev_char_boundary(&doc, 9), 8);
}

#[test]
fn column_offsets_within_a_line() {
    let doc = doc_of("ab\nпрв\n".as_bytes());
    assert_eq!(offset_in_range(&doc, 3, 10, 0), 3);
    assert_eq!(offset_in_range(&doc, 3, 10, 2), 7);
    assert_eq!(offset_in_range(&doc, 3, 10, 9), 9);
    assert_eq!(offset_in_range(&doc, 0, 3, 5), 2);
    assert_eq!(offset_in_range(&doc, 3, 40, 2), 5);
}

#[test]
fn widest_line_leaves_out_the_break() {
    let doc = doc_of(b"ab\nabcd\nx");
    assert_eq!(max_line_bytes(&doc), 4);
    let doc = doc_of(b"");
    assert_eq!(max_line_bytes(&doc), 0);
}

#[test]
fn caret_selection() {
    let mut caret = Caret::default();
    assert!(!caret.has_selection());
    caret.select_all(10);
    assert!(caret.has_selection());
    assert_eq!(caret.selection_range(), (0, 10));
    caret.anchor = 12;
    assert_eq!(caret.selection_range(), (10, 12));
    caret.collapse_to_offset();
    assert_eq!(caret, Caret { offset: 10, anchor: 10 });
    assert_eq!(Caret::new(), Caret { offset: 0, anchor: 0 });
}

#[test]
fn replace_all_undoes_step_by_step() {
    let mut doc = doc_of(b"foo bar foo");
    assert_eq!(replace_all(&mut doc, "foo", "quux", true, 100), 2);
    assert_eq!(doc.slice(0, doc.len()).unwrap(), b"quux bar quux");
    for _ in 0..4 {
        doc.undo().unwrap();
    }
    assert_eq!(doc.slice(0, doc.len()).unwrap(), b"foo bar foo");
    assert!(!doc.can_undo());
}

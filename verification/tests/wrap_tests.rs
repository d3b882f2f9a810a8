use fast_notepad::buffer::{Document, LineEnding, LineIndex, PieceTable};
use fast_notepad::wrap::{
    caret_visual_row, first_line_on_screen, horizontal_scroll_to_show, last_first_row, offset_at_visual_row,
    page_scroll, scroll_by_lines, scroll_to_show, scrollbar_target, selection_on_line, span_piece, total_visual_rows,
    visual_rows, ScrollRequest,
};
use fast_notepad::language::{TokenKind, TokenSpan};

fn doc_of(bytes: &[u8]) -> Document {
    let table = PieceTable::from_utf8_bytes(bytes.to_vec());
    let lines = LineIndex::from_bytes(bytes);
    Document::from_table(table, lines, LineEnding::Lf)
}

#[test]
fn wrapped_rows_split_every_cols_chars() {
    let doc = doc_of(b"abcdef\nxy");
    assert_eq!(visual_rows(&doc, 0, true, 4), vec![(0, 4), (4, 6)]);
    assert_eq!(visual_rows(&doc, 1, true, 4), vec![(7, 9)]);
    assert_eq!(visual_rows(&doc, 0, false, 4), vec![(0, 6)]);
}

#[test]
fn wrapped_rows_of_exact_multiple() {
    let doc = doc_of(b"abcdefgh");
    assert_eq!(visual_rows(&doc, 0, true, 4), vec![(0, 4), (4, 8)]);
    assert_eq!(visual_rows(&doc, 0, true, 1).len(), 8);
}

#[test]
fn wrapped_rows_of_empty_and_crlf_lines() {
    let doc = doc_of(b"\r\nab\r\n");
    assert_eq!(visual_rows(&doc, 0, true, 4), vec![(0, 0)]);
    assert_eq!(visual_rows(&doc, 1, true, 1), vec![(2, 3), (3, 4)]);
    assert_eq!(visual_rows(&doc, 2, true, 4), vec![(6, 6)]);
}

#[test]
fn wrapped_rows_count_characters_not_bytes() {
    let doc = doc_of("h\u{e9}llo".as_bytes());
    assert_eq!(visual_rows(&doc, 0, true, 2), vec![(0, 3), (3, 5), (5, 6)]);
}

#[test]
fn unknown_line_spans_whole_document() {
    let doc = doc_of(b"ab\ncd");
    assert_eq!(visual_rows(&doc, 7, false, 3), vec![(0, 4)]);
}

#[test]
fn total_rows_with_and_without_wrap() {
    let doc = doc_of(b"abcdef\nxy");
    assert_eq!(total_visual_rows(&doc, true, 4), 3);
    assert_eq!(total_visual_rows(&doc, false, 4), 2);
    assert_eq!(total_visual_rows(&doc_of(b""), true, 4), 1);
}

#[test]
fn caret_row_when_wrapping() {
    let doc = doc_of(b"abcdef\nxy");
    assert_eq!(caret_visual_row(&doc, 0, 4), 0);
    assert_eq!(caret_visual_row(&doc, 4, 4), 0);
    assert_eq!(caret_visual_row(&doc, 5, 4), 1);
    assert_eq!(caret_visual_row(&doc, 8, 4), 2);
}

#[test]
fn scrolling_shows_the_row() {
    assert_eq!(scroll_to_show(5, 2, 3), 2);
    assert_eq!(scroll_to_show(5, 9, 3), 7);
    assert_eq!(scroll_to_show(5, 6, 3), 5);
    assert_eq!(scroll_to_show(5, 7, 3), 5);
    assert_eq!(scroll_to_show(5, 8, 3), 6);
}

#[test]
fn scroll_by_lines_is_held_in_range() {
    let doc = doc_of(b"abcdef\nxy");
    assert_eq!(scroll_by_lines(&doc, 0, 5, false, 4), 1);
    assert_eq!(scroll_by_lines(&doc, 1, -3, false, 4), 0);
    assert_eq!(scroll_by_lines(&doc, 0, 5, true, 4), 2);
    assert_eq!(scroll_by_lines(&doc, 0, 1, true, 4), 1);
}

#[test]
fn offset_at_a_wrapped_row() {
    let doc = doc_of(b"abcdef\nxy");
    assert_eq!(offset_at_visual_row(&doc, 4, 0, 1, 1), 5);
    assert_eq!(offset_at_visual_row(&doc, 4, 1, 1, 9), 9);
    assert_eq!(offset_at_visual_row(&doc, 4, 0, 0, 2), 2);
    assert_eq!(offset_at_visual_row(&doc, 4, 0, 5, 0), 9);
    assert_eq!(offset_at_visual_row(&doc, 4, usize::MAX, 1, 0), 9);
}

#[test]
fn line_holding_a_screen_row() {
    let doc = doc_of(b"abcdef\nxy");
    assert_eq!(first_line_on_screen(&doc, 4, 0), 0);
    assert_eq!(first_line_on_screen(&doc, 4, 1), 0);
    assert_eq!(first_line_on_screen(&doc, 4, 2), 1);
    assert_eq!(first_line_on_screen(&doc, 4, 10), 0);
}

#[test]
fn horizontal_scroll_brings_caret_into_view() {
    assert_eq!(horizontal_scroll_to_show(100, 50, 200, 8), 42);
    assert_eq!(horizontal_scroll_to_show(0, 300, 200, 8), 108);
    assert_eq!(horizontal_scroll_to_show(0, 50, 200, 8), 0);
    assert_eq!(horizontal_scroll_to_show(0, i32::MIN + 2, 200, 8), i32::MIN);
}

#[test]
fn last_row_to_start_at() {
    let doc = doc_of(b"abcdef\nxy");
    assert_eq!(last_first_row(&doc, false, 4), 1);
    assert_eq!(last_first_row(&doc, true, 4), 2);
    assert_eq!(last_first_row(&doc_of(b""), true, 4), 0);
}

#[test]
fn paging_up_and_down() {
    assert_eq!(page_scroll(10, 4, 100, false), 6);
    assert_eq!(page_scroll(3, 4, 100, false), 0);
    assert_eq!(page_scroll(10, 4, 100, true), 14);
    assert_eq!(page_scroll(10, 4, 12, true), 12);
    assert_eq!(page_scroll(10, 4, 5, false), 5);
    assert_eq!(page_scroll(usize::MAX - 1, 4, 20, true), 20);
}

#[test]
fn scrollbar_requests_move_and_clamp() {
    assert_eq!(scrollbar_target(ScrollRequest::LineBack, 5, 1, 10, 40, 39), Some(4));
    assert_eq!(scrollbar_target(ScrollRequest::LineBack, 0, 1, 10, 40, 39), Some(0));
    assert_eq!(scrollbar_target(ScrollRequest::LineForward, 5, 1, 10, 40, 39), Some(6));
    assert_eq!(scrollbar_target(ScrollRequest::PageForward, 35, 1, 10, 40, 39), Some(39));
    assert_eq!(scrollbar_target(ScrollRequest::PageBack, 35, 1, 10, 40, 39), Some(25));
    assert_eq!(scrollbar_target(ScrollRequest::ToStart, 35, 1, 10, 40, 39), Some(0));
    assert_eq!(scrollbar_target(ScrollRequest::ToEnd, 3, 1, 10, 40, 39), Some(39));
    assert_eq!(scrollbar_target(ScrollRequest::Track(17), 3, 1, 10, 40, 39), Some(17));
    assert_eq!(scrollbar_target(ScrollRequest::Other, 3, 1, 10, 40, 39), Some(3));
    assert_eq!(scrollbar_target(ScrollRequest::LineForward, i32::MAX, 1, 10, 40, 39), None);
    assert_eq!(scrollbar_target(ScrollRequest::Other, 3, 1, 10, 40, -1), None);
}

#[test]
fn span_pieces_are_clipped_and_widened_to_characters() {
    let line = "h\u{e9}llo w\u{f6}rld";
    let span = TokenSpan { start: 0, end: 5, kind: TokenKind::Heading };
    assert_eq!(span_piece(line, span, 0, line.len()), Some((0, 0, 5)));
    // A clip that starts inside the two bytes of the accented letter widens to its start.
    assert_eq!(span_piece(line, span, 2, line.len()), Some((1, 1, 5)));
    // An end inside a character widens to the character's end.
    let inner = TokenSpan { start: 0, end: 2, kind: TokenKind::Keyword };
    assert_eq!(span_piece(line, inner, 0, line.len()), Some((0, 0, 3)));
    let far = TokenSpan { start: 8, end: 100, kind: TokenKind::String };
    assert_eq!(span_piece(line, far, 0, line.len()), Some((7, 8, 13)));
    assert_eq!(span_piece(line, far, 0, 8), None);
    assert_eq!(span_piece(line, span, 3, 3), None);
    assert_eq!(span_piece("", span, 0, 5), None);
}

#[test]
fn selection_parts_on_lines() {
    assert_eq!(selection_on_line(3, 12, 0, 6), Some((3, 6)));
    assert_eq!(selection_on_line(3, 12, 6, 10), Some((0, 4)));
    assert_eq!(selection_on_line(3, 12, 10, 20), Some((0, 2)));
    assert_eq!(selection_on_line(3, 12, 12, 20), None);
    assert_eq!(selection_on_line(3, 3, 0, 20), None);
}

use fast_notepad::buffer::{Document, LineEnding, LineIndex, PieceTable};
use fast_notepad::editing::parse_line_number;
use fast_notepad::file_io::step_line_index;
use fast_notepad::session::{
    after_save, close_step, poll_disk_change, reload_declined, CloseStep, DiskAction, DiskWatch, SaveAnswer,
};
use fast_notepad::view::printed_line;

fn doc_of(bytes: &[u8]) -> Document {
    let table = PieceTable::from_utf8_bytes(bytes.to_vec());
    let lines = LineIndex::from_bytes(bytes);
    Document::from_table(table, lines, LineEnding::Lf)
}

fn starts_of(index: &LineIndex) -> Vec<usize> {
    (0..index.line_count()).map(|i| index.line_start(i).unwrap()).collect()
}

#[test]
fn first_check_records_the_time() {
    let watch = DiskWatch { last_write_secs: None, notified: false };
    let (w, action) = poll_disk_change(watch, Some(100), false);
    assert_eq!(action, DiskAction::Nothing);
    assert_eq!(w.last_write_secs, Some(100));
    assert!(!w.notified);
}

#[test]
fn unreadable_time_changes_nothing() {
    let watch = DiskWatch { last_write_secs: Some(5), notified: false };
    let (w, action) = poll_disk_change(watch, None, true);
    assert_eq!(action, DiskAction::Nothing);
    assert_eq!(w.last_write_secs, Some(5));
}

#[test]
fn change_is_reported_once() {
    let watch = DiskWatch { last_write_secs: Some(100), notified: false };
    let (w, action) = poll_disk_change(watch, Some(200), false);
    assert_eq!(action, DiskAction::AskReload);
    assert!(w.notified);
    assert_eq!(w.last_write_secs, Some(100));
    let (w2, again) = poll_disk_change(w, Some(300), false);
    assert_eq!(again, DiskAction::Nothing);
    assert!(w2.notified);
}

#[test]
fn change_with_unsaved_edits_warns() {
    let watch = DiskWatch { last_write_secs: Some(100), notified: false };
    let (_, action) = poll_disk_change(watch, Some(101), true);
    assert_eq!(action, DiskAction::WarnDirty);
}

#[test]
fn same_time_is_not_a_change() {
    let watch = DiskWatch { last_write_secs: Some(100), notified: false };
    let (w, action) = poll_disk_change(watch, Some(100), true);
    assert_eq!(action, DiskAction::Nothing);
    assert!(!w.notified);
}

#[test]
fn declining_a_reload_takes_the_new_time() {
    let w = reload_declined(250);
    assert_eq!(w.last_write_secs, Some(250));
    assert!(!w.notified);
    let (_, action) = poll_disk_change(w, Some(250), false);
    assert_eq!(action, DiskAction::Nothing);
    let (_, later) = poll_disk_change(w, Some(260), false);
    assert_eq!(later, DiskAction::AskReload);
}

#[test]
fn closing_asks_only_for_unsaved_tabs() {
    assert_eq!(close_step(false, SaveAnswer::Cancel), CloseStep::Close);
    assert_eq!(close_step(true, SaveAnswer::Yes), CloseStep::Save);
    assert_eq!(close_step(true, SaveAnswer::No), CloseStep::Close);
    assert_eq!(close_step(true, SaveAnswer::Cancel), CloseStep::Keep);
    assert_eq!(after_save(true), CloseStep::Keep);
    assert_eq!(after_save(false), CloseStep::Close);
}

#[test]
fn line_numbers_parse_like_from_str() {
    assert_eq!(parse_line_number("42"), Some(42));
    assert_eq!(parse_line_number("  7 \n"), Some(7));
    assert_eq!(parse_line_number("+3"), Some(3));
    assert_eq!(parse_line_number("0"), Some(0));
    assert_eq!(parse_line_number(""), None);
    assert_eq!(parse_line_number("   "), None);
    assert_eq!(parse_line_number("+"), None);
    assert_eq!(parse_line_number("-1"), None);
    assert_eq!(parse_line_number("1 2"), None);
    assert_eq!(parse_line_number("12a"), None);
    assert_eq!(parse_line_number("18446744073709551616"), None);
    assert_eq!(parse_line_number("\u{3000}9\u{2029}"), Some(9));
    assert_eq!(parse_line_number("\u{0663}"), None);
}

#[test]
fn line_numbers_agree_with_std() {
    for text in ["5", " 12 ", "+0", "x", "", "9999", "00017", "\t8\r\n", "++1", "1_000"] {
        assert_eq!(parse_line_number(text), text.trim().parse::<usize>().ok(), "{text:?}");
    }
}

#[test]
fn printed_lines_drop_breaks_and_cut_when_wrapping() {
    let doc = doc_of("abcdef\r\nh\u{e9}llo\n".as_bytes());
    assert_eq!(printed_line(&doc, 0, false, 3), "abcdef");
    assert_eq!(printed_line(&doc, 0, true, 3), "abc");
    assert_eq!(printed_line(&doc, 1, true, 2), "h\u{e9}");
    assert_eq!(printed_line(&doc, 1, true, 9), "h\u{e9}llo");
    assert_eq!(printed_line(&doc, 2, true, 9), "");
}

#[test]
fn line_index_steps_and_rebuilds_after_edits_past_the_scan() {
    let table = PieceTable::from_utf8_bytes(b"ab\ncd".to_vec());
    let mut index = LineIndex::new();
    index.mark_incomplete();
    let mut doc = Document::from_table(table, index, LineEnding::Lf);
    doc.insert(4, "x\n").unwrap();
    assert_eq!(doc.slice(0, doc.len()).unwrap(), b"ab\ncx\nd");
    assert!(step_line_index(&mut doc));
    assert!(doc.lines().is_complete());
    assert_eq!(starts_of(doc.lines()), vec![0, 3, 6]);
    assert_eq!(doc.lines().scan_cursor(), 7);
}

#[test]
fn line_index_step_scans_when_in_order() {
    let table = PieceTable::from_utf8_bytes(b"ab\ncd".to_vec());
    let mut index = LineIndex::new();
    index.mark_incomplete();
    let mut doc = Document::from_table(table, index, LineEnding::Lf);
    assert!(step_line_index(&mut doc));
    assert_eq!(starts_of(doc.lines()), vec![0, 3]);
    assert!(step_line_index(&mut doc));
}


use fast_notepad::buffer::{Document, LineEnding, LineIndex, PieceTable};
use fast_notepad::editing::{
    active_after_close, cycle_tab, delete_selection, delete_selection_or_char, detect_language_for, down_target,
    end_target, find_from_caret, format_document, home_target, insert_text, language_after_path_change, left_target,
    line_end_content,
    line_start_of, move_caret, page_down_target, page_up_target, replace_at_caret, right_target, selected_text,
    typed_text, up_target, FormatOutcome,
};
use fast_notepad::encoding::FileEncoding;
use fast_notepad::language::{LanguageId, LanguageRegistry, FORMAT_MAX_BYTES};
use fast_notepad::text::{decimal_text, wide};
use fast_notepad::view::{status_text, Caret};

fn doc_of(text: &str) -> Document {
    let table = PieceTable::from_utf8_bytes(text.as_bytes().to_vec());
    let lines = LineIndex::from_bytes(text.as_bytes());
    Document::from_table(table, lines, LineEnding::detect(text.as_bytes()))
}

fn text_of(doc: &Document) -> String {
    String::from_utf8(doc.slice(0, doc.len()).unwrap()).unwrap()
}

#[test]
fn typing_replaces_the_selection() {
    let mut doc = doc_of("hello world");
    let mut caret = Caret { offset: 5, anchor: 11 };
    insert_text(&mut doc, &mut caret, ", there");
    assert_eq!(text_of(&doc), "hello, there");
    assert_eq!(caret, Caret { offset: 12, anchor: 12 });
    let mut caret = Caret { offset: 0, anchor: 0 };
    insert_text(&mut doc, &mut caret, "> ");
    assert_eq!(text_of(&doc), "> hello, there");
    assert_eq!(caret.offset, 2);
}

#[test]
fn backspace_and_delete_remove_whole_characters() {
    let mut doc = doc_of("aпb");
    let mut caret = Caret { offset: 3, anchor: 3 };
    delete_selection_or_char(&mut doc, &mut caret, true);
    assert_eq!(text_of(&doc), "ab");
    assert_eq!(caret, Caret { offset: 1, anchor: 1 });
    let mut doc = doc_of("aпb");
    let mut caret = Caret { offset: 1, anchor: 1 };
    delete_selection_or_char(&mut doc, &mut caret, false);
    assert_eq!(text_of(&doc), "ab");
    assert_eq!(caret, Caret { offset: 1, anchor: 1 });
    let mut caret = Caret { offset: 0, anchor: 0 };
    delete_selection_or_char(&mut doc, &mut caret, true);
    assert_eq!(text_of(&doc), "ab");
    let mut caret = Caret { offset: 2, anchor: 0 };
    delete_selection_or_char(&mut doc, &mut caret, false);
    assert_eq!(text_of(&doc), "");
    assert_eq!(caret, Caret { offset: 0, anchor: 0 });
}

#[test]
fn cut_and_copy_the_selection() {
    let mut doc = doc_of("abc\u{e9}d");
    let caret = Caret { offset: 5, anchor: 1 };
    assert_eq!(selected_text(&doc, caret).as_deref(), Some("bc\u{e9}"));
    assert_eq!(selected_text(&doc, Caret { offset: 2, anchor: 2 }), None);
    assert_eq!(selected_text(&doc, Caret { offset: 2, anchor: 99 }), None);
    let mut caret = caret;
    assert!(delete_selection(&mut doc, &mut caret));
    assert_eq!(text_of(&doc), "ad");
    assert_eq!(caret, Caret { offset: 1, anchor: 1 });
    assert!(!delete_selection(&mut doc, &mut caret));
}

#[test]
fn caret_moves_between_lines() {
    let doc = doc_of("abcd\r\nxy\nlonger line");
    assert_eq!(line_start_of(&doc, 1), 6);
    assert_eq!(line_start_of(&doc, 9), 0);
    assert_eq!(line_end_content(&doc, 0), 4);
    assert_eq!(line_end_content(&doc, 1), 8);
    assert_eq!(line_end_content(&doc, 2), 20);
    assert_eq!(up_target(&doc, 3), None);
    assert_eq!(down_target(&doc, 3), Some(8));
    assert_eq!(down_target(&doc, 7), Some(10));
    assert_eq!(up_target(&doc, 13), Some(8));
    assert_eq!(down_target(&doc, 13), None);
    assert_eq!(home_target(&doc, 13), 9);
    assert_eq!(end_target(&doc, 1), 4);
    assert_eq!(page_up_target(&doc, 13, 5), 0);
    assert_eq!(page_down_target(&doc, 0, 5, 2), 9);
    assert_eq!(page_down_target(&doc, 0, 1, 2), 6);
    assert_eq!(page_down_target(&doc, 0, usize::MAX, 2), 9);
}

#[test]
fn left_and_right() {
    let doc = doc_of("aпb");
    assert_eq!(left_target(&doc, Caret { offset: 3, anchor: 3 }, false), 1);
    assert_eq!(right_target(&doc, Caret { offset: 1, anchor: 1 }, false), 3);
    assert_eq!(left_target(&doc, Caret { offset: 3, anchor: 0 }, false), 0);
    assert_eq!(right_target(&doc, Caret { offset: 0, anchor: 3 }, false), 3);
    assert_eq!(left_target(&doc, Caret { offset: 3, anchor: 0 }, true), 1);
    let mut caret = Caret { offset: 1, anchor: 1 };
    move_caret(&mut caret, 3, true, 4);
    assert_eq!(caret, Caret { offset: 3, anchor: 1 });
    move_caret(&mut caret, 99, false, 4);
    assert_eq!(caret, Caret { offset: 4, anchor: 4 });
}

#[test]
fn tab_switching_and_closing() {
    assert_eq!(cycle_tab(2, 3, false), 0);
    assert_eq!(cycle_tab(0, 3, true), 2);
    assert_eq!(cycle_tab(1, 3, true), 0);
    assert_eq!(active_after_close(0, 0, 0), 0);
    assert_eq!(active_after_close(3, 3, 3), 2);
    assert_eq!(active_after_close(2, 0, 3), 1);
    assert_eq!(active_after_close(1, 2, 3), 1);
}

#[test]
fn find_wraps_round_and_replace_selects_the_result() {
    let mut doc = doc_of("cat dog cat");
    assert_eq!(find_from_caret(&doc, "cat", Caret { offset: 1, anchor: 1 }, true), Some((8, 11)));
    assert_eq!(find_from_caret(&doc, "cat", Caret { offset: 8, anchor: 11 }, true), Some((0, 3)));
    assert_eq!(find_from_caret(&doc, "cow", Caret { offset: 0, anchor: 0 }, true), None);
    let mut caret = Caret { offset: 4, anchor: 4 };
    assert!(replace_at_caret(&mut doc, &mut caret, "cat", "tiger", true));
    assert_eq!(text_of(&doc), "cat dog tiger");
    assert_eq!(caret, Caret { offset: 13, anchor: 8 });
    assert!(!replace_at_caret(&mut doc, &mut caret, "cat", "x", true));
}

#[test]
fn format_document_outcomes() {
    let reg = LanguageRegistry::builtin();
    let mut doc = doc_of("a  \r\n\r\n\r\n\r\nb\r\n");
    assert_eq!(format_document(&mut doc, LanguageId::Unknown, &reg), FormatOutcome::NoFormatter);
    assert_eq!(format_document(&mut doc, LanguageId::Markdown, &reg), FormatOutcome::Replaced);
    assert_eq!(text_of(&doc), "a\r\n\r\n\r\nb\r\n");
    assert_eq!(format_document(&mut doc, LanguageId::Markdown, &reg), FormatOutcome::Unchanged);
    let mut json = doc_of("{\"a\":1}");
    assert_eq!(format_document(&mut json, LanguageId::Json, &reg), FormatOutcome::Replaced);
    assert_eq!(text_of(&json), "{\n  \"a\": 1\n}");
    let mut bad = doc_of("{oops");
    match format_document(&mut bad, LanguageId::Json, &reg) {
        FormatOutcome::Failed(m) => assert!(m.starts_with("Invalid JSON: ")),
        other => panic!("unexpected {other:?}"),
    }
    assert_eq!(text_of(&bad), "{oops");
    let big = "x".repeat(FORMAT_MAX_BYTES + 1);
    let mut big_doc = doc_of(&big);
    assert_eq!(format_document(&mut big_doc, LanguageId::Markdown, &reg), FormatOutcome::TooLarge(FORMAT_MAX_BYTES + 1));
}

#[test]
fn language_of_an_opened_document() {
    let reg = LanguageRegistry::builtin();
    let doc = doc_of("[1, 2]");
    assert_eq!(detect_language_for(&doc, None, &reg), LanguageId::Json);
    assert_eq!(detect_language_for(&doc, Some("list.md"), &reg), LanguageId::Markdown);
    let mut long = " ".repeat(5000);
    long.push('{');
    assert_eq!(detect_language_for(&doc_of(&long), None, &reg), LanguageId::Unknown);
}

#[test]
fn language_after_saving_follows_the_new_path_unless_locked() {
    let reg = LanguageRegistry::builtin();
    let doc = doc_of("plain words");
    assert_eq!(
        language_after_path_change(&doc, "notes.md", LanguageId::Unknown, false, &reg),
        LanguageId::Markdown
    );
    assert_eq!(
        language_after_path_change(&doc, "notes.md", LanguageId::Json, true, &reg),
        LanguageId::Json
    );
    assert_eq!(
        language_after_path_change(&doc, "data.txt", LanguageId::Markdown, false, &reg),
        LanguageId::Unknown
    );
}

#[test]
fn utf16_text_for_win32() {
    assert_eq!(wide("A"), vec![0x41, 0]);
    assert_eq!(wide("Ж€"), vec![0x416, 0x20AC, 0]);
    assert_eq!(wide("😀"), vec![0xD83D, 0xDE00, 0]);
    assert_eq!(wide(""), vec![0]);
}

#[test]
fn decimal_numbers() {
    assert_eq!(decimal_text(0), "0");
    assert_eq!(decimal_text(7), "7");
    assert_eq!(decimal_text(1234567890), "1234567890");
    assert_eq!(decimal_text(usize::MAX), usize::MAX.to_string());
}

#[test]
fn status_bar_text() {
    let doc = doc_of("ab\r\ncd");
    assert_eq!(
        status_text(&doc, 5, false, FileEncoding::Utf8, LanguageId::Json),
        "Ln 2, Col 2  |  UTF-8  |  CRLF  |  No Wrap  |  JSON"
    );
    assert_eq!(
        status_text(&doc, 0, true, FileEncoding::Windows1251, LanguageId::Unknown),
        "Ln 1, Col 1  |  Windows-1251  |  CRLF  |  Wrap  |  Plain Text"
    );
}

#[test]
fn typed_characters_insert_text() {
    assert_eq!(typed_text(13, LineEnding::CrLf).as_deref(), Some("\r\n"));
    assert_eq!(typed_text(13, LineEnding::Lf).as_deref(), Some("\n"));
    assert_eq!(typed_text(13, LineEnding::Mixed).as_deref(), Some("\n"));
    assert_eq!(typed_text(9, LineEnding::Lf).as_deref(), Some("\t"));
    assert_eq!(typed_text(b'a' as u32, LineEnding::Lf).as_deref(), Some("a"));
    assert_eq!(typed_text(0xE9, LineEnding::Lf).as_deref(), Some("\u{e9}"));
    assert_eq!(typed_text(0x1F600, LineEnding::Lf).as_deref(), Some("\u{1F600}"));
    assert_eq!(typed_text(8, LineEnding::Lf), None);
    assert_eq!(typed_text(10, LineEnding::Lf), None);
    assert_eq!(typed_text(0x7F, LineEnding::Lf), None);
    assert_eq!(typed_text(0x85, LineEnding::Lf), None);
    assert_eq!(typed_text(0xD800, LineEnding::Lf), None);
    assert_eq!(typed_text(0x110000, LineEnding::Lf), None);
}

#[test]
fn typing_over_a_selection_undoes_in_two_steps() {
    let mut doc = doc_of("hello world");
    let mut caret = Caret { offset: 5, anchor: 0 };
    insert_text(&mut doc, &mut caret, "bye");
    assert_eq!(doc.slice(0, doc.len()).unwrap(), b"bye world");
    assert!(doc.is_dirty());
    assert!(!doc.can_redo());
    doc.undo().unwrap();
    assert_eq!(doc.slice(0, doc.len()).unwrap(), b" world");
    doc.undo().unwrap();
    assert_eq!(doc.slice(0, doc.len()).unwrap(), b"hello world");
    assert!(!doc.can_undo());
}

#[test]
fn backspace_at_start_records_nothing() {
    let mut doc = doc_of("abc");
    let mut caret = Caret { offset: 0, anchor: 0 };
    delete_selection_or_char(&mut doc, &mut caret, true);
    assert!(!doc.can_undo());
    assert!(!doc.is_dirty());
    delete_selection_or_char(&mut doc, &mut caret, false);
    assert!(doc.can_undo());
    doc.undo().unwrap();
    assert_eq!(doc.slice(0, doc.len()).unwrap(), b"abc");
}

#[test]
fn format_document_undoes_to_the_original() {
    let registry = LanguageRegistry::builtin();
    let mut doc = doc_of("a  \n\n\n\n\nb");
    assert_eq!(format_document(&mut doc, LanguageId::Markdown, &registry), FormatOutcome::Replaced);
    assert_eq!(doc.slice(0, doc.len()).unwrap(), b"a\n\n\nb\n");
    doc.undo().unwrap();
    assert_eq!(doc.slice(0, doc.len()).unwrap(), b"");
    doc.undo().unwrap();
    assert_eq!(doc.slice(0, doc.len()).unwrap(), b"a  \n\n\n\n\nb");
}

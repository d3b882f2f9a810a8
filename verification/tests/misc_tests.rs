
use fast_notepad::find::{FindAction, FindReplaceResult};
use fast_notepad::language::TokenKind;
use fast_notepad::theme::Theme;
use fast_notepad::settings::{AppSettings, MAX_RECENT};
use fast_notepad::tabs::{
    close_button_hit, content_bottom_inset, is_blank_document, pointer_zone, scroll_bar_layout, shown_title, tab_at_x,
    tab_title, title_for_path,
    BarRect, PointerZone, SCROLLBAR_THICKNESS, STATUS_HEIGHT, TAB_HEIGHT, TAB_MAX_WIDTH, TAB_MIN_WIDTH,
};

#[test]
fn tab_hit_testing() {
    assert_eq!(tab_at_x(10, 0, 800), None);
    // 800 px for 4 tabs gives 200 px each, held at the maximum of 160
    assert_eq!(tab_at_x(0, 4, 800), Some(0));
    assert_eq!(tab_at_x(159, 4, 800), Some(0));
    assert_eq!(tab_at_x(160, 4, 800), Some(1));
    assert_eq!(tab_at_x(639, 4, 800), Some(3));
    assert_eq!(tab_at_x(640, 4, 800), None);
    // 300 px for 10 tabs gives 30 px each, held at the minimum of 80
    assert_eq!(tab_at_x(85, 10, 300), Some(1));
    // a small negative position still rounds toward the first tab
    assert_eq!(tab_at_x(-50, 3, 300), Some(0));
    assert_eq!(tab_at_x(-150, 3, 300), None);
    assert_eq!(TAB_MIN_WIDTH, 80);
    assert_eq!(TAB_MAX_WIDTH, 160);
}

#[test]
fn close_button_region() {
    // tabs of 100 px: the close button of tab 1 spans [182, 196)
    assert!(!close_button_hit(181, 1, 3, 300));
    assert!(close_button_hit(182, 1, 3, 300));
    assert!(close_button_hit(195, 1, 3, 300));
    assert!(!close_button_hit(196, 1, 3, 300));
    assert!(!close_button_hit(190, 0, 0, 300));
}

#[test]
fn tab_titles() {
    assert_eq!(tab_title(None, false), "Untitled");
    assert_eq!(tab_title(Some("a.md"), true), "*a.md");
    assert_eq!(title_for_path(Some("dir/notes.txt"), false), "notes.txt");
    assert_eq!(title_for_path(None, true), "*Untitled");
}

#[test]
fn settings_defaults() {
    let s = AppSettings::default();
    assert_eq!(s.font_face, "Consolas");
    assert_eq!(s.font_size, 16);
    assert!(!s.dark_theme);
    assert!(!s.word_wrap);
    assert!(s.recent.is_empty());
}

#[test]
fn recent_files_move_to_front_without_duplicates() {
    let mut s = AppSettings::default();
    for i in 0..12 {
        s.push_recent(format!("f{i}"));
    }
    assert_eq!(s.recent.len(), MAX_RECENT);
    assert_eq!(s.recent[0], "f11");
    assert_eq!(s.recent[9], "f2");
    s.push_recent("f5".to_string());
    assert_eq!(s.recent.len(), MAX_RECENT);
    assert_eq!(s.recent[0], "f5");
    assert_eq!(s.recent.iter().filter(|p| p.as_str() == "f5").count(), 1);
    assert_eq!(s.recent[1], "f11");
    s.add_recent("x/y.txt");
    assert_eq!(s.recent[0], "x/y.txt");
    assert_eq!(s.recent[1], "f5");
}

#[test]
fn find_dialog_result() {
    let r = FindReplaceResult {
        find: "a".to_string(),
        replace: "b".to_string(),
        case_sensitive: true,
        action: FindAction::ReplaceAll,
    };
    assert_eq!(r.clone().action, FindAction::ReplaceAll);
    assert_ne!(FindAction::FindNext, FindAction::Replace);
}

#[test]
fn missing_recent_files_are_dropped() {
    let mut s = AppSettings::default();
    s.push_recent("a".to_string());
    s.push_recent("b".to_string());
    s.push_recent("c".to_string());
    s.remove_recent(&"b".to_string());
    assert_eq!(s.recent, vec!["c".to_string(), "a".to_string()]);
    s.remove_recent(&"zzz".to_string());
    assert_eq!(s.recent.len(), 2);
}

#[test]
fn pointer_shape_zones() {
    // A window 600 high: the horizontal bar sits in the 12 pixels above the status bar.
    let bottom = STATUS_HEIGHT + 12;
    assert_eq!(pointer_zone(790, 300, 788, 600, bottom, false), PointerZone::ScrollBar);
    assert_eq!(pointer_zone(100, 600 - bottom, 788, 600, bottom, false), PointerZone::ScrollBar);
    assert_eq!(pointer_zone(100, 600 - bottom, 788, 600, bottom, true), PointerZone::Text);
    assert_eq!(pointer_zone(100, 600 - STATUS_HEIGHT, 788, 600, bottom, false), PointerZone::Text);
    assert_eq!(pointer_zone(100, TAB_HEIGHT - 1, 788, 600, bottom, false), PointerZone::TabStrip);
    assert_eq!(pointer_zone(100, TAB_HEIGHT, 788, 600, bottom, false), PointerZone::Text);
}

#[test]
fn scroll_bars_tile_the_right_and_bottom_edges() {
    let layout = scroll_bar_layout(800, 600, false);
    assert_eq!(layout.vertical, BarRect { x: 788, y: 28, width: 12, height: 538 });
    assert_eq!(layout.horizontal, Some(BarRect { x: 0, y: 566, width: 788, height: 12 }));
    let wrapped = scroll_bar_layout(800, 600, true);
    assert_eq!(wrapped.vertical, BarRect { x: 788, y: 28, width: 12, height: 550 });
    assert_eq!(wrapped.horizontal, None);
    let tiny = scroll_bar_layout(5, 30, false);
    assert_eq!(tiny.vertical, BarRect { x: 0, y: TAB_HEIGHT, width: SCROLLBAR_THICKNESS, height: 0 });
    assert_eq!(tiny.horizontal, Some(BarRect { x: 0, y: TAB_HEIGHT, width: 0, height: SCROLLBAR_THICKNESS }));
}

#[test]
fn chrome_takes_the_status_bar_and_horizontal_bar() {
    assert_eq!(content_bottom_inset(true), STATUS_HEIGHT);
    assert_eq!(content_bottom_inset(false), STATUS_HEIGHT + SCROLLBAR_THICKNESS);
}

#[test]
fn long_tab_titles_are_cut() {
    assert_eq!(shown_title("notes.md"), "notes.md");
    assert_eq!(shown_title("exactly-18-chars.x"), "exactly-18-chars.x");
    assert_eq!(shown_title("a-rather-long-file-name.txt"), "a-rather-long-fi\u{2026}");
    assert_eq!(shown_title("*\u{43f}\u{440}\u{438}\u{432}\u{435}\u{442}-\u{43c}\u{438}\u{440}-\u{43a}\u{430}\u{43a}-\u{434}\u{435}\u{43b}\u{430}.md").chars().count(), 17);
}

#[test]
fn themes_colour_tokens() {
    let light = Theme::light();
    let dark = Theme::dark();
    assert_eq!(light.bg, 0x00FFFFFF);
    assert_eq!(dark.bg, 0x001E1E1E);
    assert_eq!(light.color_for(TokenKind::Keyword), 0x00A00000);
    assert_eq!(dark.color_for(TokenKind::Link), 0x004FC1FF);
    assert_eq!(dark.color_for(TokenKind::Text), dark.text);
    assert_eq!(Theme::for_dark(true), dark);
    assert_eq!(Theme::for_dark(false), light);
}

#[test]
fn blank_documents() {
    let mut doc = fast_notepad::buffer::Document::new();
    assert!(is_blank_document(&doc));
    doc.insert(0, "x").unwrap();
    assert!(!is_blank_document(&doc));
    doc.undo().unwrap();
    // Back to empty, but the document was changed.
    assert!(doc.is_dirty());
    assert!(!is_blank_document(&doc));
}

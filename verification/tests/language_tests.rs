use std::path::PathBuf;

use fast_notepad::buffer::{Document, LineEnding, LineIndex, PieceTable};
use fast_notepad::language::seed_highlight_state;

use fast_notepad::language::detect::{detect_language, detect_language_for_extension, eq_ignoring_ascii_case};
use fast_notepad::language::json::JsonMode;
use fast_notepad::language::markdown::{format_markdown, MarkdownMode};
use fast_notepad::language::unknown::UnknownMode;
use fast_notepad::language::{
    BuiltinMode, HighlightState, LanguageId, LanguageMode, LanguageRegistry, TokenKind, TokenSpan,
};

#[test]
fn extension_beats_sniff() {
    let reg = LanguageRegistry::builtin();
    // a .md file that looks like JSON is still Markdown
    assert_eq!(
        reg.detect(Some("x.md"), b"{\"a\":1}"),
        LanguageId::Markdown
    );
}

#[test]
fn sniff_object_and_array() {
    let m = JsonMode;
    assert!(m.sniff(b"  {\"a\":1}"));
    assert!(m.sniff(b"[1]"));
    assert!(!m.sniff(b"hello"));
}

#[test]
fn highlight_keys_strings_numbers() {
    let m = JsonMode;
    let mut state = HighlightState::default();
    let spans = m.highlight_line(r#"{"a": 12, "b": "hi"}"#, &mut state);
    assert!(spans.iter().any(|s| s.kind == TokenKind::Keyword));
    assert!(spans.iter().any(|s| s.kind == TokenKind::Number));
    assert!(spans.iter().any(|s| s.kind == TokenKind::String));
    assert!(!state.in_string);
}

#[test]
fn multiline_string_state() {
    let m = JsonMode;
    let mut state = HighlightState::default();
    let _ = m.highlight_line(r#"{"x": "hello"#, &mut state);
    assert!(state.in_string);
    let spans = m.highlight_line(r#"world"}"#, &mut state);
    assert!(spans.iter().any(|s| s.kind == TokenKind::String));
    assert!(!state.in_string);
}

#[test]
fn format_pretty() {
    let m = JsonMode;
    let out = m.format(r#"{"a":1,"b":[2]}"#).unwrap();
    assert!(out.contains('\n'));
    let parsed: serde_json::Value = serde_json::from_str(&out).unwrap();
    assert_eq!(parsed["a"], 1);
}

#[test]
fn format_invalid() {
    let m = JsonMode;
    assert!(m.format("{bad").is_err());
}

#[test]
fn heading_and_code() {
    let m = MarkdownMode;
    let mut state = HighlightState::default();
    let h = m.highlight_line("# Title", &mut state);
    assert_eq!(h[0].kind, TokenKind::Heading);

    let c = m.highlight_line("use `code` here", &mut state);
    assert!(c.iter().any(|s| s.kind == TokenKind::Code));
}

#[test]
fn fence_state() {
    let m = MarkdownMode;
    let mut state = HighlightState::default();
    let _ = m.highlight_line("```rust", &mut state);
    assert!(state.in_code_fence);
    let mid = m.highlight_line("fn main() {}", &mut state);
    assert_eq!(mid[0].kind, TokenKind::Code);
    let _ = m.highlight_line("```", &mut state);
    assert!(!state.in_code_fence);
}

#[test]
fn link_span() {
    let m = MarkdownMode;
    let mut state = HighlightState::default();
    let spans = m.highlight_line("see [docs](https://x.com) now", &mut state);
    assert!(spans.iter().any(|s| s.kind == TokenKind::Link));
}

#[test]
fn format_trims_and_collapses() {
    let m = MarkdownMode;
    let out = m.format("hello   \n\n\n\nworld  \n").unwrap();
    assert!(!out.contains("hello   "));
    // three or more blank lines become two (three line feeds between text)
    assert!(!out.contains("\n\n\n\n"));
    assert!(out.contains("hello\n\n\nworld\n"));
    assert!(out.ends_with('\n'));
}

#[test]
fn detect_by_extension() {
    let reg = LanguageRegistry::builtin();
    assert_eq!(
        reg.detect(Some("a.json"), b""),
        LanguageId::Json
    );
    assert_eq!(
        reg.detect(Some("readme.md"), b""),
        LanguageId::Markdown
    );
    assert_eq!(
        reg.detect(Some("notes.markdown"), b""),
        LanguageId::Markdown
    );
    assert_eq!(
        reg.detect(Some("a.txt"), b"hello"),
        LanguageId::Unknown
    );
}

#[test]
fn detect_json_by_sniff() {
    let reg = LanguageRegistry::builtin();
    assert_eq!(
        reg.detect(Some("data"), b"  {\"a\":1}"),
        LanguageId::Json
    );
    assert_eq!(
        reg.detect(None, b"[1,2,3]"),
        LanguageId::Json
    );
}

#[test]
fn unknown_default_untitled() {
    let reg = LanguageRegistry::builtin();
    assert_eq!(reg.detect(None, b""), LanguageId::Unknown);
    assert_eq!(reg.detect(None, b"hello world"), LanguageId::Unknown);
}

#[test]
fn display_names() {
    assert_eq!(LanguageId::Unknown.display_name(), "Plain Text");
    let p: PathBuf = PathBuf::from("x.json");
    let _ = p;
}

#[test]
fn extension_match_ignores_ascii_case() {
    let reg = LanguageRegistry::builtin();
    assert_eq!(reg.detect(Some("DATA.JSON"), b""), LanguageId::Json);
    assert_eq!(reg.detect(Some("Read.Md"), b"[1]"), LanguageId::Markdown);
    assert!(eq_ignoring_ascii_case("MarkDown", "markdown"));
    assert!(!eq_ignoring_ascii_case("md", "mdx"));
    assert!(!eq_ignoring_ascii_case("é", "É"));
}

#[test]
fn detection_from_a_given_extension() {
    let modes = [BuiltinMode::Json, BuiltinMode::Markdown, BuiltinMode::Unknown];
    assert_eq!(detect_language_for_extension(Some("md"), b"{}", &modes), LanguageId::Markdown);
    assert_eq!(detect_language_for_extension(Some("txt"), b"{}", &modes), LanguageId::Json);
    assert_eq!(detect_language_for_extension(None, b"  x", &modes), LanguageId::Unknown);
    // with JSON left out, a sample that looks like JSON is plain text
    let no_json = [BuiltinMode::Markdown, BuiltinMode::Unknown];
    assert_eq!(detect_language(None, b"{}", &no_json), LanguageId::Unknown);
}

#[test]
fn registry_lookup() {
    let reg = LanguageRegistry::default();
    assert_eq!(reg.all_ids(), vec![LanguageId::Json, LanguageId::Markdown, LanguageId::Unknown]);
    assert_eq!(reg.get(LanguageId::Markdown), BuiltinMode::Markdown);
    assert_eq!(reg.get(LanguageId::Json).id(), LanguageId::Json);
    assert_eq!(reg.get(LanguageId::Json).display_name(), "JSON");
    assert_eq!(reg.get(LanguageId::Markdown).extensions(), &["md", "markdown"]);
    assert!(reg.get(LanguageId::Unknown).extensions().is_empty());
}

#[test]
fn json_spans_exactly() {
    let mut state = HighlightState::default();
    let spans = JsonMode.highlight_line(r#"{"k": true, "n": -1.5e3}"#, &mut state);
    let kinds: Vec<(usize, usize, TokenKind)> = spans.iter().map(|s| (s.start, s.end, s.kind)).collect();
    assert_eq!(
        kinds,
        vec![
            (0, 1, TokenKind::Punctuation),
            (1, 4, TokenKind::Keyword),
            (4, 5, TokenKind::Punctuation),
            (6, 10, TokenKind::Keyword),
            (10, 11, TokenKind::Punctuation),
            (12, 15, TokenKind::Keyword),
            (15, 16, TokenKind::Punctuation),
            (17, 23, TokenKind::Number),
            (23, 24, TokenKind::Punctuation),
        ]
    );
}

#[test]
fn json_escape_keeps_string_open() {
    let mut state = HighlightState::default();
    let _ = JsonMode.highlight_line(r#""a\"#, &mut state);
    assert!(state.in_string);
    assert!(state.string_escape);
    let spans = JsonMode.highlight_line(r#""b" 1"#, &mut state);
    assert_eq!(spans[0], TokenSpan { start: 0, end: 3, kind: TokenKind::String });
    assert!(!state.in_string);
}

#[test]
fn json_format_errors_name_the_problem() {
    let err = JsonMode.format("[1,").unwrap_err();
    assert!(err.starts_with("Invalid JSON: "));
    assert!(err.len() > "Invalid JSON: ".len());
    assert_eq!(
        JsonMode.format("{bad").unwrap_err(),
        "Invalid JSON: key must be a string at line 1 column 2"
    );
}

#[test]
fn plain_text_mode() {
    let mut state = HighlightState::default();
    state.in_string = true;
    let spans = UnknownMode.highlight_line("abc", &mut state);
    assert_eq!(spans, vec![TokenSpan { start: 0, end: 3, kind: TokenKind::Text }]);
    assert!(state.in_string);
    assert!(UnknownMode.highlight_line("", &mut state).is_empty());
    assert_eq!(UnknownMode.format("x"), Err("No formatter for Plain Text".to_string()));
    assert!(!UnknownMode.sniff(b"{"));
}

#[test]
fn markdown_heading_and_emphasis_spans() {
    let mut state = HighlightState::default();
    let spans = MarkdownMode.highlight_line("## Sub", &mut state);
    assert_eq!(spans, vec![TokenSpan { start: 0, end: 6, kind: TokenKind::Heading }]);
    let spans = MarkdownMode.highlight_line("a **b** c", &mut state);
    assert!(spans.iter().any(|s| s.kind == TokenKind::Emphasis && s.start == 2 && s.end == 7));
}

#[test]
fn markdown_fence_needs_matching_marker() {
    let mut state = HighlightState::default();
    let _ = MarkdownMode.highlight_line("~~~~", &mut state);
    assert!(state.in_code_fence);
    let _ = MarkdownMode.highlight_line("```", &mut state);
    assert!(state.in_code_fence);
    let _ = MarkdownMode.highlight_line("~~~~~", &mut state);
    assert!(!state.in_code_fence);
}

#[test]
fn markdown_format_keeps_crlf_and_adds_final_newline() {
    assert_eq!(format_markdown("a  \r\nb"), "a\r\nb\r\n");
    assert_eq!(format_markdown(""), "\n");
    assert_eq!(format_markdown("\n\n\n\n"), "\n\n");
    assert_eq!(format_markdown("x\n\n\n\n\ny"), "x\n\n\ny\n");
}

#[test]
fn markdown_format_is_stable() {
    let once = format_markdown("t \n\n\n\n u\t\n");
    assert_eq!(format_markdown(&once), once);
}

#[test]
fn builtin_mode_dispatch() {
    let mut state = HighlightState::default();
    let spans = BuiltinMode::Markdown.highlight_line("# H", &mut state);
    assert_eq!(spans[0].kind, TokenKind::Heading);
    assert!(BuiltinMode::Json.sniff(b"\n[\n"));
    assert!(!BuiltinMode::Markdown.sniff(b"["));
    assert_eq!(BuiltinMode::Markdown.format("x  ").unwrap(), "x\n");
    assert_eq!(BuiltinMode::Unknown.display_name(), "Plain Text");
}

#[test]
fn highlight_state_is_seeded_from_lines_above() {
    let text = "intro\r\n```rust\r\nlet x = 1;\r\n";
    let table = PieceTable::from_utf8_bytes(text.as_bytes().to_vec());
    let lines = LineIndex::from_bytes(text.as_bytes());
    let doc = Document::from_table(table, lines, LineEnding::CrLf);
    let state = seed_highlight_state(&doc, BuiltinMode::Markdown, 3);
    assert!(state.in_code_fence);
    assert_eq!(state.fence_marker, "```");
    let state = seed_highlight_state(&doc, BuiltinMode::Markdown, 1);
    assert!(!state.in_code_fence);
    let json = "{\"a\": \"open\n";
    let table = PieceTable::from_utf8_bytes(json.as_bytes().to_vec());
    let lines = LineIndex::from_bytes(json.as_bytes());
    let doc = Document::from_table(table, lines, LineEnding::Lf);
    assert!(seed_highlight_state(&doc, BuiltinMode::Json, 1).in_string);
    assert!(!seed_highlight_state(&doc, BuiltinMode::Json, 0).in_string);
}

#[test]
fn formatting_markdown_twice_changes_nothing() {
    for text in [
        "",
        "\n",
        "   ",
        "hello   \n\n\n\nworld  \n",
        "a\r\nb  \r\n\r\n\r\n\r\nc",
        "# Title\t\n\n\n",
        "x\ry\n\n",
        "\n\n\n\n\nlast",
    ] {
        let once = format_markdown(text);
        assert_eq!(format_markdown(&once), once, "{text:?}");
        assert!(once.ends_with('\n'));
        assert!(!once.contains("\n\n\n\n"));
    }
}

fn assert_in_order(spans: &[TokenSpan], len: usize) {
    for (k, s) in spans.iter().enumerate() {
        assert!(s.start <= s.end && s.end <= len, "{spans:?}");
        if k + 1 < spans.len() {
            assert!(s.end <= spans[k + 1].start, "{spans:?}");
        }
    }
}

#[test]
fn highlight_spans_stay_in_order() {
    let lines = [
        r#"{"key": [1, -2.5e3, true, null], "s": "a\"b"}"#,
        "  **bold** and _it_ with `code` and [x](y) ![i](j) *",
        "# Heading",
        "```",
        "",
        "plain \u{e9}t\u{e9}",
    ];
    for mode in [BuiltinMode::Json, BuiltinMode::Markdown, BuiltinMode::Unknown] {
        let mut state = HighlightState::default();
        for line in lines {
            let spans = mode.highlight_line(line, &mut state);
            assert_in_order(&spans, line.len());
        }
    }
}

#[test]
fn json_spans_leave_only_white_space_uncovered() {
    let line = "{\"a\":\t1,  true}";
    let mut state = HighlightState::default();
    let spans = JsonMode.highlight_line(line, &mut state);
    let bytes = line.as_bytes();
    for (k, b) in bytes.iter().enumerate() {
        let covered = spans.iter().any(|s| s.start <= k && k < s.end);
        if !covered {
            assert!(*b == b' ' || *b == b'\t' || *b == b'\r');
        }
    }
    assert_eq!(spans.len(), 7);
}

#[test]
fn markdown_spans_cover_the_line() {
    let mut state = HighlightState::default();
    let line = "see *this* and [a](b) `c`!";
    let spans = MarkdownMode.highlight_line(line, &mut state);
    assert_eq!(spans[0].start, 0);
    for pair in spans.windows(2) {
        assert_eq!(pair[0].end, pair[1].start);
    }
    assert_eq!(spans.last().unwrap().end, line.len());
    let open = MarkdownMode.highlight_line("```rust", &mut state);
    assert_eq!(open.len(), 1);
    assert_eq!(open[0].kind, TokenKind::Code);
    let inside = MarkdownMode.highlight_line("let *x* = 1;", &mut state);
    assert_eq!(inside.len(), 1);
    assert_eq!((inside[0].start, inside[0].end, inside[0].kind), (0, 12, TokenKind::Code));
}

#[test]
fn markdown_format_keeps_text_lines_in_order() {
    let out = format_markdown("one  \r\n\r\n\r\n\r\n  two\t\r\nthree");
    assert_eq!(out, "one\r\n\r\n\r\n  two\r\nthree\r\n");
    let texts: Vec<&str> = out.split('\n').map(|l| l.trim_end()).filter(|l| !l.is_empty()).collect();
    assert_eq!(texts, vec!["one", "  two", "three"]);
}

#[test]
fn json_format_gives_serde_json_pretty_text() {
    assert_eq!(JsonMode.format("[1,{\"k\":null}]").unwrap(), "[\n  1,\n  {\n    \"k\": null\n  }\n]");
}

#[test]
fn markdown_fences_may_follow_unicode_white_space() {
    let mut state = HighlightState::default();
    let open = MarkdownMode.highlight_line("\u{3000}\t```", &mut state);
    assert_eq!(open.len(), 1);
    assert_eq!((open[0].start, open[0].end, open[0].kind), (0, 7, TokenKind::Code));
    assert!(state.in_code_fence);
    let _ = MarkdownMode.highlight_line("  ```", &mut state);
    assert!(!state.in_code_fence);
}

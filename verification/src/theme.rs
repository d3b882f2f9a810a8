//! The editor's colours, light and dark.
use vstd::prelude::*;
use crate::language::TokenKind;

verus! {

/// The colours the editor paints with, each a Windows colour value
/// (`0x00BBGGRR`).
#[derive(Debug, Clone, Copy, PartialEq, Eq, Structural)]
pub struct Theme {
    /// The colour of the text area.
    pub bg: u32,
    /// The colour of plain text.
    pub text: u32,
    /// The colour of the line number gutter.
    pub gutter_bg: u32,
    /// The colour of line numbers.
    pub gutter_text: u32,
    /// The colour of the selection.
    pub selection: u32,
    /// The colour of the caret.
    pub caret: u32,
    /// The colour of the tab strip.
    pub tab_bg: u32,
    /// The colour of the active tab.
    pub tab_active: u32,
    /// The colour of tab titles.
    pub tab_text: u32,
    /// The colour of the status bar.
    pub status_bg: u32,
    /// The colour of status bar text.
    pub status_text: u32,
    /// The colour of keywords.
    pub tok_keyword: u32,
    /// The colour of strings.
    pub tok_string: u32,
    /// The colour of numbers.
    pub tok_number: u32,
    /// The colour of comments.
    pub tok_comment: u32,
    /// The colour of punctuation.
    pub tok_punctuation: u32,
    /// The colour of headings.
    pub tok_heading: u32,
    /// The colour of emphasis.
    pub tok_emphasis: u32,
    /// The colour of code.
    pub tok_code: u32,
    /// The colour of links.
    pub tok_link: u32,
}

/// The light theme.
pub open spec fn light_theme() -> Theme {
    Theme {
        bg: 0x00FFFFFF,
        text: 0x00000000,
        gutter_bg: 0x00F0F0F0,
        gutter_text: 0x00808080,
        selection: 0x00FFD080,
        caret: 0x00000000,
        tab_bg: 0x00E8E8E8,
        tab_active: 0x00FFFFFF,
        tab_text: 0x00000000,
        status_bg: 0x00F0F0F0,
        status_text: 0x00000000,
        tok_keyword: 0x00A00000,
        tok_string: 0x00008000,
        tok_number: 0x00808000,
        tok_comment: 0x00808080,
        tok_punctuation: 0x00404040,
        tok_heading: 0x00A00000,
        tok_emphasis: 0x00800080,
        tok_code: 0x000000A0,
        tok_link: 0x00FF0000,
    }
}

/// The dark theme.
pub open spec fn dark_theme() -> Theme {
    Theme {
        bg: 0x001E1E1E,
        text: 0x00D4D4D4,
        gutter_bg: 0x00252525,
        gutter_text: 0x00808080,
        selection: 0x00264F78,
        caret: 0x00FFFFFF,
        tab_bg: 0x002D2D2D,
        tab_active: 0x001E1E1E,
        tab_text: 0x00D4D4D4,
        status_bg: 0x000077BD,
        status_text: 0x00FFFFFF,
        tok_keyword: 0x00DCDCAA,
        tok_string: 0x009CE07B,
        tok_number: 0x00B5CEA8,
        tok_comment: 0x006A9955,
        tok_punctuation: 0x00D4D4D4,
        tok_heading: 0x00569CD6,
        tok_emphasis: 0x00C586C0,
        tok_code: 0x00CE9178,
        tok_link: 0x004FC1FF,
    }
}

/// The colour of text highlighted as `kind`.
pub open spec fn token_color(t: Theme, kind: TokenKind) -> u32 {
    match kind {
        TokenKind::Text => t.text,
        TokenKind::Keyword => t.tok_keyword,
        TokenKind::String => t.tok_string,
        TokenKind::Number => t.tok_number,
        TokenKind::Comment => t.tok_comment,
        TokenKind::Punctuation => t.tok_punctuation,
        TokenKind::Heading => t.tok_heading,
        TokenKind::Emphasis => t.tok_emphasis,
        TokenKind::Code => t.tok_code,
        TokenKind::Link => t.tok_link,
    }
}

impl Theme {
    /// The light theme.
    pub fn light() -> (r: Self)
        ensures
            r == light_theme(),
    {
        Theme {
            bg: 0x00FFFFFF,
            text: 0x00000000,
            gutter_bg: 0x00F0F0F0,
            gutter_text: 0x00808080,
            selection: 0x00FFD080,
            caret: 0x00000000,
            tab_bg: 0x00E8E8E8,
            tab_active: 0x00FFFFFF,
            tab_text: 0x00000000,
            status_bg: 0x00F0F0F0,
            status_text: 0x00000000,
            tok_keyword: 0x00A00000,
            tok_string: 0x00008000,
            tok_number: 0x00808000,
            tok_comment: 0x00808080,
            tok_punctuation: 0x00404040,
            tok_heading: 0x00A00000,
            tok_emphasis: 0x00800080,
            tok_code: 0x000000A0,
            tok_link: 0x00FF0000,
        }
    }

    /// The dark theme.
    pub fn dark() -> (r: Self)
        ensures
            r == dark_theme(),
    {
        Theme {
            bg: 0x001E1E1E,
            text: 0x00D4D4D4,
            gutter_bg: 0x00252525,
            gutter_text: 0x00808080,
            selection: 0x00264F78,
            caret: 0x00FFFFFF,
            tab_bg: 0x002D2D2D,
            tab_active: 0x001E1E1E,
            tab_text: 0x00D4D4D4,
            status_bg: 0x000077BD,
            status_text: 0x00FFFFFF,
            tok_keyword: 0x00DCDCAA,
            tok_string: 0x009CE07B,
            tok_number: 0x00B5CEA8,
            tok_comment: 0x006A9955,
            tok_punctuation: 0x00D4D4D4,
            tok_heading: 0x00569CD6,
            tok_emphasis: 0x00C586C0,
            tok_code: 0x00CE9178,
            tok_link: 0x004FC1FF,
        }
    }

    /// The light or the dark theme.
    pub fn for_dark(dark: bool) -> (r: Self)
        ensures
            r == if dark {
                dark_theme()
            } else {
                light_theme()
            },
    {
        if dark {
            Self::dark()
        } else {
            Self::light()
        }
    }

    /// The colour of text highlighted as `kind`.
    pub fn color_for(&self, kind: TokenKind) -> (r: u32)
        ensures
            r == token_color(*self, kind),
    {
        match kind {
            TokenKind::Text => self.text,
            TokenKind::Keyword => self.tok_keyword,
            TokenKind::String => self.tok_string,
            TokenKind::Number => self.tok_number,
            TokenKind::Comment => self.tok_comment,
            TokenKind::Punctuation => self.tok_punctuation,
            TokenKind::Heading => self.tok_heading,
            TokenKind::Emphasis => self.tok_emphasis,
            TokenKind::Code => self.tok_code,
            TokenKind::Link => self.tok_link,
        }
    }
}

} // verus!

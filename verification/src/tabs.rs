use vstd::prelude::*;
use vstd::string::*;
use crate::buffer::Document;
use crate::text::{chars_of, string_from_chars};

verus! {

pub const TAB_HEIGHT: i32 = 28;

pub const STATUS_HEIGHT: i32 = 22;

/// Wider than the default Win32 scroll bars, so they are easier to hit with
/// the mouse.
pub const SCROLLBAR_THICKNESS: i32 = 12;

pub const TAB_MIN_WIDTH: i32 = 80;

pub const TAB_MAX_WIDTH: i32 = 160;

/// `a / b` rounded toward zero, as Rust's integer division rounds.
pub open spec fn div_toward_zero(a: int, b: int) -> int {
    if a >= 0 {
        a / b
    } else {
        -((-a) / b)
    }
}

/// The width of each of `tab_count` tabs sharing `client_width` pixels,
/// kept between the minimum and the maximum tab width.
pub open spec fn tab_width_of(tab_count: int, client_width: int) -> int {
    let w = div_toward_zero(client_width, tab_count);
    if w < TAB_MIN_WIDTH {
        TAB_MIN_WIDTH as int
    } else if w > TAB_MAX_WIDTH {
        TAB_MAX_WIDTH as int
    } else {
        w
    }
}

/// The tab under the horizontal position `x`.
pub open spec fn tab_under(x: int, tab_count: int, client_width: int) -> Option<int> {
    if tab_count == 0 {
        None
    } else {
        let i = div_toward_zero(x, tab_width_of(tab_count, client_width));
        if 0 <= i < tab_count {
            Some(i)
        } else {
            None
        }
    }
}

/// The width of each of `tab_count` tabs sharing `client_width` pixels.
pub fn tab_width(tab_count: usize, client_width: i32) -> (r: i32)
    requires
        0 < tab_count <= i32::MAX,
    ensures
        r == tab_width_of(tab_count as int, client_width as int),
        TAB_MIN_WIDTH <= r <= TAB_MAX_WIDTH,
{
    let n = tab_count as i64;
    let cw = client_width as i64;
    let q: i64 = if cw >= 0 { cw / n } else { -((-cw) / n) };
    if q < TAB_MIN_WIDTH as i64 {
        TAB_MIN_WIDTH
    } else if q > TAB_MAX_WIDTH as i64 {
        TAB_MAX_WIDTH
    } else {
        q as i32
    }
}

/// Which of `tab_count` tabs lies under the horizontal position `x`.
pub fn tab_at_x(x: i32, tab_count: usize, client_width: i32) -> (r: Option<usize>)
    requires
        tab_count <= i32::MAX,
    ensures
        r == (match tab_under(x as int, tab_count as int, client_width as int) {
            Some(i) => Some(i as usize),
            None => None,
        }),
{
    if tab_count == 0 {
        return None;
    }
    let width = tab_width(tab_count, client_width) as i64;
    let xx = x as i64;
    let idx: i64 = if xx >= 0 { xx / width } else { -((-xx) / width) };
    if 0 <= idx && idx < tab_count as i64 {
        Some(idx as usize)
    } else {
        None
    }
}

/// The close button of a tab spans from 18 to 4 pixels before its right
/// edge.
pub open spec fn on_close_button(x: int, tab_index: int, tab_count: int, client_width: int) -> bool {
    if tab_count == 0 {
        false
    } else {
        let width = tab_width_of(tab_count, client_width);
        let left = tab_index * width;
        left + width - 18 <= x < left + width - 4
    }
}

/// A point on the close button of a tab lies on that tab.
pub proof fn lemma_close_button_in_tab(x: int, tab_index: int, tab_count: int, client_width: int)
    requires
        0 <= tab_index < tab_count,
        on_close_button(x, tab_index, tab_count, client_width),
    ensures
        tab_under(x, tab_count, client_width) == Some(tab_index),
{
    let w = tab_width_of(tab_count, client_width);
    let left = tab_index * w;
    assert(left >= 0) by (nonlinear_arith)
        requires
            left == tab_index * w,
            tab_index >= 0,
            w >= 80,
    ;
    assert(x >= left);
    assert(x / w == tab_index) by (nonlinear_arith)
        requires
            left == tab_index * w,
            left <= x < left + w,
            w > 0,
    ;
}

/// Whether `x` is on the close button of tab `tab_index` of `tab_count`.
pub fn close_button_hit(x: i32, tab_index: usize, tab_count: usize, client_width: i32) -> (r: bool)
    requires
        tab_count <= i32::MAX,
        tab_index <= i32::MAX,
        tab_count > 0 ==> tab_index * tab_width_of(tab_count as int, client_width as int) + tab_width_of(
            tab_count as int,
            client_width as int,
        ) <= i32::MAX,
    ensures
        r == on_close_button(x as int, tab_index as int, tab_count as int, client_width as int),
{
    if tab_count == 0 {
        return false;
    }
    let width = tab_width(tab_count, client_width);
    let left = tab_index as i32 * width;
    let close_left = left + width - 18;
    x >= close_left && x < left + width - 4
}

/// The title of a tab showing a file named `name` (none for an untitled
/// document): the name, or "Untitled", after a star when there are unsaved
/// changes.
pub open spec fn title_text(name: Option<Seq<char>>, dirty: bool) -> Seq<char> {
    let shown = match name {
        Some(n) => n,
        None => "Untitled"@,
    };
    if dirty {
        "*"@ + shown
    } else {
        shown
    }
}

/// What `Path::file_name` gives for the path written `path`: its final
/// component, unless that is `..` or there is none.
pub uninterp spec fn file_name_of(path: Seq<char>) -> Option<Seq<char>>;

/// `Path::new(path).file_name()`, as text (the name of a path given as text
/// is text too).
#[verifier::external_body]
fn path_file_name(path: &str) -> (r: Option<&str>)
    ensures
        r matches Some(n) ==> file_name_of(path@) == Some(n@),
        r is None ==> file_name_of(path@) is None,
{
    match std::path::Path::new(path).file_name() {
        Some(n) => n.to_str(),
        None => None,
    }
}

/// The title of a tab whose file is called `name`.
pub fn tab_title(name: Option<&str>, dirty: bool) -> (r: String)
    ensures
        r@ == title_text(
            match name {
                Some(n) => Some(n@),
                None => None,
            },
            dirty,
        ),
{
    let shown = match name {
        Some(n) => n,
        None => "Untitled",
    };
    if dirty {
        String::from_str("*").concat(shown)
    } else {
        String::from_str(shown)
    }
}

/// The title of a tab showing the file at `path`.
pub fn title_for_path(path: Option<&str>, dirty: bool) -> (r: String)
    ensures
        r@ == title_text(
            match path {
                Some(p) => file_name_of(p@),
                None => None,
            },
            dirty,
        ),
{
    let name = match path {
        Some(p) => path_file_name(p),
        None => None,
    };
    tab_title(name, dirty)
}


/// A tab with an untitled, unchanged, empty document: opening a file
/// replaces it rather than adding a tab.
pub fn is_blank_document(doc: &Document) -> (r: bool)
    requires
        doc.wf(),
    ensures
        r == (!doc.has_path() && !doc.dirty_flag() && doc.text().len() == 0),
{
    doc.path().is_none() && !doc.is_dirty() && doc.is_empty()
}

/// The longest title a tab shows whole, in characters.
pub const TITLE_MAX_CHARS: usize = 18;

/// How many characters of a longer title a tab shows before an ellipsis.
pub const TITLE_KEPT_CHARS: usize = 16;

/// The text a tab shows for `title`: the title itself when it is short
/// enough, else its first characters and an ellipsis.
pub open spec fn shown_title_text(title: Seq<char>) -> Seq<char> {
    if title.len() > TITLE_MAX_CHARS {
        title.take(TITLE_KEPT_CHARS as int) + seq!['\u{2026}']
    } else {
        title
    }
}

/// The text a tab shows for `title`.
pub fn shown_title(title: &str) -> (r: String)
    ensures
        r@ == shown_title_text(title@),
{
    let chars = chars_of(title);
    if chars.len() > TITLE_MAX_CHARS {
        let mut kept: Vec<char> = Vec::new();
        let mut i: usize = 0;
        while i < TITLE_KEPT_CHARS
            invariant
                i <= TITLE_KEPT_CHARS < chars@.len(),
                kept@ == chars@.take(i as int),
            decreases TITLE_KEPT_CHARS - i,
        {
            assert(chars@.take(i + 1) =~= chars@.take(i as int).push(chars@[i as int]));
            kept.push(chars[i]);
            i = i + 1;
        }
        kept.push('\u{2026}');
        string_from_chars(kept.as_slice())
    } else {
        string_from_chars(chars.as_slice())
    }
}

/// Where the mouse pointer is over the window, for its shape.
#[derive(Debug, Clone, Copy, PartialEq, Eq, Structural)]
pub enum PointerZone {
    /// Over a scroll bar: a hand.
    ScrollBar,
    /// Over the tab strip: an arrow.
    TabStrip,
    /// Over the text: an I-beam.
    Text,
}

/// The zone of the point `(x, y)` in a window `client_height` high whose
/// editor ends at `editor_right` and leaves `content_bottom` below the text
/// (the horizontal scroll bar, shown only when words do not wrap, then the
/// status bar).
pub open spec fn zone_of(x: int, y: int, editor_right: int, client_height: int, content_bottom: int, word_wrap: bool) -> PointerZone {
    let over_vscroll = x >= editor_right;
    let over_hscroll = !word_wrap && y >= client_height - content_bottom && y < client_height - STATUS_HEIGHT;
    if over_vscroll || over_hscroll {
        PointerZone::ScrollBar
    } else if y < TAB_HEIGHT {
        PointerZone::TabStrip
    } else {
        PointerZone::Text
    }
}

/// The zone of the mouse pointer at `(x, y)`.
pub fn pointer_zone(x: i32, y: i32, editor_right: i32, client_height: i32, content_bottom: i32, word_wrap: bool) -> (r:
    PointerZone)
    requires
        i32::MIN <= client_height - content_bottom <= i32::MAX,
        i32::MIN <= client_height - STATUS_HEIGHT,
    ensures
        r == zone_of(x as int, y as int, editor_right as int, client_height as int, content_bottom as int, word_wrap),
{
    let over_vscroll = x >= editor_right;
    let over_hscroll = !word_wrap && y >= client_height - content_bottom && y < client_height - STATUS_HEIGHT;
    if over_vscroll || over_hscroll {
        PointerZone::ScrollBar
    } else if y < TAB_HEIGHT {
        PointerZone::TabStrip
    } else {
        PointerZone::Text
    }
}


/// The space below the text that the window's chrome takes: the status bar,
/// and the horizontal scroll bar when words do not wrap.
pub fn content_bottom_inset(word_wrap: bool) -> (r: i32)
    ensures
        r == if word_wrap {
            STATUS_HEIGHT as int
        } else {
            STATUS_HEIGHT + SCROLLBAR_THICKNESS
        },
{
    if word_wrap {
        STATUS_HEIGHT
    } else {
        STATUS_HEIGHT + SCROLLBAR_THICKNESS
    }
}

/// Where a scroll bar stands in the window's client area.
#[derive(Debug, Clone, Copy, PartialEq, Eq, Structural)]
pub struct BarRect {
    pub x: i32,
    pub y: i32,
    pub width: i32,
    pub height: i32,
}

/// Where the scroll bars stand: the vertical one along the right edge from
/// the tab strip down, the horizontal one (shown when words do not wrap)
/// above the status bar.
#[derive(Debug, Clone, Copy, PartialEq, Eq, Structural)]
pub struct BarLayout {
    pub vertical: BarRect,
    pub horizontal: Option<BarRect>,
}

pub open spec fn max_of(a: int, b: int) -> int {
    if a >= b {
        a
    } else {
        b
    }
}

/// The top of the status bar, not above the tab strip.
pub open spec fn status_top(client_h: int) -> int {
    max_of(client_h - STATUS_HEIGHT, TAB_HEIGHT as int)
}

/// The top of the horizontal scroll bar (the status bar's top when it is
/// hidden).
pub open spec fn h_bar_top(client_h: int, word_wrap: bool) -> int {
    if word_wrap {
        status_top(client_h)
    } else {
        max_of(status_top(client_h) - SCROLLBAR_THICKNESS, TAB_HEIGHT as int)
    }
}

/// Lays out the scroll bars for a client area `client_w` by `client_h`.
/// The vertical bar ends where the horizontal bar starts, and the
/// horizontal bar ends where the vertical one starts.
pub fn scroll_bar_layout(client_w: i32, client_h: i32, word_wrap: bool) -> (r: BarLayout)
    requires
        client_h >= i32::MIN + STATUS_HEIGHT,
        client_w >= i32::MIN + SCROLLBAR_THICKNESS,
    ensures
        r.vertical == (BarRect {
            x: max_of(client_w - SCROLLBAR_THICKNESS, 0) as i32,
            y: TAB_HEIGHT,
            width: SCROLLBAR_THICKNESS,
            height: (h_bar_top(client_h as int, word_wrap) - TAB_HEIGHT) as i32,
        }),
        word_wrap ==> r.horizontal is None,
        !word_wrap ==> r.horizontal == Some(
            BarRect {
                x: 0,
                y: h_bar_top(client_h as int, word_wrap) as i32,
                width: max_of(client_w - SCROLLBAR_THICKNESS, 0) as i32,
                height: SCROLLBAR_THICKNESS,
            },
        ),
        r.vertical.y + r.vertical.height == h_bar_top(client_h as int, word_wrap),
        r.horizontal matches Some(h) ==> h.y == r.vertical.y + r.vertical.height && h.x + h.width == r.vertical.x,
{
    let thick = SCROLLBAR_THICKNESS;
    let top = TAB_HEIGHT;
    let below = client_h - STATUS_HEIGHT;
    let status = if below > top { below } else { top };
    let h_top = if word_wrap {
        status
    } else {
        let above = status - thick;
        if above > top { above } else { top }
    };
    let left = client_w - thick;
    let v_left = if left > 0 { left } else { 0 };
    let vertical = BarRect { x: v_left, y: top, width: thick, height: h_top - top };
    let horizontal = if word_wrap {
        None
    } else {
        Some(BarRect { x: 0, y: h_top, width: v_left, height: thick })
    };
    BarLayout { vertical, horizontal }
}

} // verus!

//! Screen layout of the editor: how a logical line breaks into rows when words
//! wrap, which row holds the caret, how far the view scrolls, and which
//! pieces of a line are painted.
use vstd::prelude::*;
use vstd::string::*;
use crate::buffer::Document;
use crate::buffer::line_index::line_at;
use crate::language::TokenSpan;
use crate::text::{ceil_char_boundary, chars_of, floor_char_boundary, lemma_encode_concat, lossy_text, utf8_len_of, utf8_lossy, utf8_width};
use crate::view::{is_break_char, offset_in_range, offset_in_range_of};

verus! {

/// The UTF-8 length of `s` in bytes.
pub open spec fn utf8_len(s: Seq<char>) -> int {
    vstd::utf8::encode_utf8(s).len() as int
}

/// A non-negative offset, held at `usize::MAX`.
pub open spec fn clamp(x: int) -> usize {
    if x <= usize::MAX {
        x as usize
    } else {
        usize::MAX
    }
}

/// `s` with its line break characters left out.
pub open spec fn strip_breaks(s: Seq<char>) -> Seq<char>
    decreases s.len(),
{
    if s.len() == 0 {
        Seq::empty()
    } else {
        let p = strip_breaks(s.drop_last());
        if is_break_char(s.last()) {
            p
        } else {
            p.push(s.last())
        }
    }
}

/// The rows that `content` wraps into, `cols` characters each but the last,
/// as byte ranges counted from `base`.
pub open spec fn rows_from(content: Seq<char>, base: int, cols: int) -> Seq<(usize, usize)>
    decreases content.len(),
{
    if content.len() == 0 || cols <= 0 {
        Seq::empty()
    } else {
        let k = if cols < content.len() {
            cols
        } else {
            content.len() as int
        };
        let w = utf8_len(content.take(k));
        seq![(clamp(base), clamp(base + w))] + rows_from(content.skip(k), base + w, cols)
    }
}

/// Where line `logical` starts, and where the next one starts (the end of
/// the text after the last line; an unknown line starts at 0).
pub open spec fn line_span(text: Seq<u8>, starts: Seq<usize>, logical: int) -> (int, int) {
    (
        if 0 <= logical < starts.len() {
            starts[logical] as int
        } else {
            0
        },
        if 0 <= logical + 1 < starts.len() {
            starts[logical + 1] as int
        } else {
            text.len() as int
        },
    )
}

/// The characters that line `start .. end` shows: its text decoded
/// leniently, line breaks left out.
pub open spec fn shown_chars(text: Seq<u8>, start: int, end: int) -> Seq<char> {
    strip_breaks(lossy_text(text.subrange(start, end)))
}

/// The screen rows of line `logical`, as byte ranges of the document: a
/// single row unless words wrap (or the line shows nothing), else rows of
/// `cols` characters.
pub open spec fn visual_rows_of(
    text: Seq<u8>,
    starts: Seq<usize>,
    logical: int,
    word_wrap: bool,
    cols: int,
) -> Seq<(usize, usize)> {
    let span = line_span(text, starts, logical);
    let start = span.0;
    let end = span.1;
    if !(start <= end <= text.len()) {
        seq![(start as usize, end as usize)]
    } else {
        let content = shown_chars(text, start, end);
        if !word_wrap || content.len() == 0 {
            seq![(start as usize, clamp(start + utf8_len(content)))]
        } else {
            rows_from(content, start, cols)
        }
    }
}

proof fn lemma_strip_shorter(s: Seq<char>)
    ensures
        utf8_len(strip_breaks(s)) <= utf8_len(s),
    decreases s.len(),
{
    if s.len() > 0 {
        let p = strip_breaks(s.drop_last());
        lemma_strip_shorter(s.drop_last());
        assert(s.drop_last() + seq![s.last()] =~= s);
        lemma_encode_concat(s.drop_last(), seq![s.last()]);
        assert(p.push(s.last()) =~= p + seq![s.last()]);
        lemma_encode_concat(p, seq![s.last()]);
    }
}

proof fn lemma_take_split(s: Seq<char>, i: int, k: int)
    requires
        0 <= i,
        0 <= k,
        i + k <= s.len(),
    ensures
        utf8_len(s.take(i + k)) == utf8_len(s.take(i)) + utf8_len(s.skip(i).take(k)),
        utf8_len(s.take(i + k)) <= utf8_len(s),
        s.skip(i).skip(k) == s.skip(i + k),
{
    assert(s.take(i + k) =~= s.take(i) + s.skip(i).take(k));
    lemma_encode_concat(s.take(i), s.skip(i).take(k));
    assert(s =~= s.take(i + k) + s.skip(i + k));
    lemma_encode_concat(s.take(i + k), s.skip(i + k));
    assert(s.skip(i).skip(k) =~= s.skip(i + k));
}

/// `s` with its line break characters left out.
fn strip_break_chars(s: &Vec<char>) -> (r: Vec<char>)
    ensures
        r@ == strip_breaks(s@),
{
    let mut out: Vec<char> = Vec::new();
    let mut i: usize = 0;
    while i < s.len()
        invariant
            i <= s@.len(),
            out@ == strip_breaks(s@.take(i as int)),
        decreases s@.len() - i,
    {
        assert(s@.take(i + 1).drop_last() =~= s@.take(i as int));
        if s[i] != '\r' && s[i] != '\n' {
            out.push(s[i]);
        }
        i = i + 1;
    }
    assert(s@.take(s@.len() as int) =~= s@);
    out
}

/// Wrapped rows tile the text they show: the first starts at `base`, each
/// starts where the one before it ends, the last ends where the text ends,
/// and a text of `n` characters takes `ceil(n / cols)` rows.
pub proof fn lemma_rows_tile(content: Seq<char>, base: int, cols: int)
    requires
        content.len() > 0,
        cols >= 1,
    ensures
        rows_from(content, base, cols).len() == (content.len() + cols - 1) / cols,
        rows_from(content, base, cols)[0].0 == clamp(base),
        rows_from(content, base, cols).last().1 == clamp(base + utf8_len(content)),
        forall|i: int|
            0 <= i < rows_from(content, base, cols).len() - 1 ==> #[trigger] rows_from(content, base, cols)[i].1
                == rows_from(content, base, cols)[i + 1].0,
    decreases content.len(),
{
    let n = content.len() as int;
    let k = if cols < n {
        cols
    } else {
        n
    };
    let w = utf8_len(content.take(k));
    let rest = content.skip(k);
    lemma_take_split(content, 0, k);
    assert(content.skip(0) =~= content);
    lemma_take_split(content, k, n - k);
    assert(content.take(n) =~= content);
    assert(rest.take(n - k) =~= rest);
    let rows = rows_from(content, base, cols);
    let tail = rows_from(rest, base + w, cols);
    assert(rows == seq![(clamp(base), clamp(base + w))] + tail);
    if k == n {
        assert(rest.len() == 0);
        assert(tail.len() == 0);
        assert((n + cols - 1) / cols == 1) by (nonlinear_arith)
            requires
                1 <= n <= cols,
        ;
    } else {
        lemma_rows_tile(rest, base + w, cols);
        assert((n + cols - 1) / cols == (n - cols + cols - 1) / cols + 1) by (nonlinear_arith)
            requires
                cols >= 1,
                n > cols,
        ;
        assert forall|i: int| 0 <= i < rows.len() - 1 implies #[trigger] rows[i].1 == rows[i + 1].0 by {
            if i > 0 {
                assert(rows[i] == tail[i - 1]);
                assert(rows[i + 1] == tail[i]);
            }
        }
    }
}

/// The screen rows of line `logical`: the whole line as one row unless
/// words wrap, else rows of `cols` characters (line breaks not counted),
/// each a byte range of the document.
pub fn visual_rows(doc: &Document, logical: usize, word_wrap: bool, cols: usize) -> (r: Vec<(usize, usize)>)
    requires
        doc.wf(),
        logical < usize::MAX,
        cols >= 1,
    ensures
        r@ == visual_rows_of(doc.text(), doc.line_index().starts(), logical as int, word_wrap, cols as int),
        r@.len() >= 1,
{
    let lines = doc.lines();
    let start = match lines.line_start(logical) {
        Some(s) => s,
        None => 0,
    };
    let end = match lines.line_start(logical + 1) {
        Some(s) => s,
        None => doc.len(),
    };
    let bytes = match doc.slice(start, end) {
        Ok(b) => b,
        Err(_) => {
            return vec![(start, end)];
        },
    };
    let text = utf8_lossy(bytes.as_slice());
    // Reading the byte length brings in that it fits a usize.
    let _n = text.as_str().as_bytes().len();
    let chars = chars_of(text.as_str());
    let content = strip_break_chars(&chars);
    let ghost c = content@;
    proof {
        lemma_strip_shorter(chars@);
        assert(c.subrange(0, c.len() as int) =~= c);
    }
    let clen = utf8_len_of(content.as_slice(), 0, content.len());
    if !word_wrap || content.len() == 0 {
        return vec![(start, start.saturating_add(clen))];
    }
    let mut rows: Vec<(usize, usize)> = Vec::new();
    let mut byte_off: usize = 0;
    let mut i: usize = 0;
    proof {
        assert(c.take(0) =~= Seq::<char>::empty());
        assert(c.skip(0) =~= c);
        assert(rows@ + rows_from(c, start as int, cols as int) =~= rows_from(c, start as int, cols as int));
    }
    while i < content.len()
        invariant
            c == content@,
            cols >= 1,
            i <= c.len(),
            clen == utf8_len(c),
            byte_off == utf8_len(c.take(i as int)),
            i > 0 ==> rows@.len() > 0,
            rows@ + rows_from(c.skip(i as int), start + byte_off, cols as int) == rows_from(
                c,
                start as int,
                cols as int,
            ),
        decreases c.len() - i,
    {
        let row_start = start.saturating_add(byte_off);
        let ghost i0 = i as int;
        let ghost off0 = byte_off as int;
        let ghost before = rows@;
        let mut count: usize = 0;
        let mut end_byte = byte_off;
        while i < content.len() && count < cols
            invariant
                c == content@,
                i0 <= i <= c.len(),
                i == i0 + count,
                count <= cols,
                clen == utf8_len(c),
                end_byte == utf8_len(c.take(i as int)),
            decreases c.len() - i,
        {
            proof {
                assert(c.take(i + 1) =~= c.take(i as int) + seq![c[i as int]]);
                lemma_encode_concat(c.take(i as int), seq![c[i as int]]);
                lemma_take_split(c, 0, i + 1);
                assert(c.skip(0) =~= c);
            }
            end_byte = end_byte + utf8_width(content[i]);
            count = count + 1;
            i = i + 1;
        }
        proof {
            let k = i - i0;
            lemma_take_split(c, i0, k);
            let rest = c.skip(i0);
            assert(rest.len() > 0);
            assert(k == if (cols as int) < rest.len() { cols as int } else { rest.len() as int });
        }
        byte_off = end_byte;
        rows.push((row_start, start.saturating_add(end_byte)));
        proof {
            let x = (clamp(start + off0), clamp(start + end_byte));
            assert(rows@ =~= before.push(x));
            assert(before.push(x) + rows_from(c.skip(i as int), start + byte_off, cols as int) =~= before + (seq![x]
                + rows_from(c.skip(i as int), start + byte_off, cols as int)));
        }
    }
    proof {
        assert(c.skip(c.len() as int).len() == 0);
        assert(rows@ + Seq::<(usize, usize)>::empty() =~= rows@);
    }
    rows
}

/// The screen rows of lines `0 .. k`, one after another.
pub open spec fn screen_rows(text: Seq<u8>, starts: Seq<usize>, word_wrap: bool, cols: int, k: int) -> Seq<(usize, usize)>
    decreases k,
{
    if k <= 0 {
        Seq::empty()
    } else {
        screen_rows(text, starts, word_wrap, cols, k - 1) + visual_rows_of(text, starts, k - 1, word_wrap, cols)
    }
}

/// The rows of the first `k` lines come first, in the same order, among the
/// rows of the first `m` lines.
pub proof fn lemma_screen_rows_prefix(text: Seq<u8>, starts: Seq<usize>, word_wrap: bool, cols: int, k: int, m: int)
    requires
        0 <= k <= m,
    ensures
        screen_rows(text, starts, word_wrap, cols, k).len() <= screen_rows(text, starts, word_wrap, cols, m).len(),
        forall|i: int|
            0 <= i < screen_rows(text, starts, word_wrap, cols, k).len() ==> screen_rows(text, starts, word_wrap, cols, m)[i]
                == screen_rows(text, starts, word_wrap, cols, k)[i],
    decreases m - k,
{
    if k < m {
        lemma_screen_rows_prefix(text, starts, word_wrap, cols, k, m - 1);
    }
}

/// How many screen rows the document takes: one per line unless words wrap
/// (at least one, and at most `usize::MAX`).
pub open spec fn total_rows_of(text: Seq<u8>, starts: Seq<usize>, word_wrap: bool, cols: int) -> usize {
    let n = if word_wrap {
        clamp(screen_rows(text, starts, true, cols, starts.len() as int).len() as int)
    } else {
        starts.len() as usize
    };
    if n >= 1 {
        n
    } else {
        1
    }
}

/// How many screen rows the document takes.
pub fn total_visual_rows(doc: &Document, word_wrap: bool, cols: usize) -> (r: usize)
    requires
        doc.wf(),
        cols >= 1,
    ensures
        r == total_rows_of(doc.text(), doc.line_index().starts(), word_wrap, cols as int),
        r >= 1,
{
    let count = doc.lines().line_count();
    if !word_wrap {
        return if count >= 1 {
            count
        } else {
            1
        };
    }
    let ghost text = doc.text();
    let ghost starts = doc.line_index().starts();
    let mut total: usize = 0;
    let mut line: usize = 0;
    while line < count
        invariant
            doc.wf(),
            cols >= 1,
            text == doc.text(),
            starts == doc.line_index().starts(),
            count == starts.len(),
            line <= count,
            total == clamp(screen_rows(text, starts, true, cols as int, line as int).len() as int),
        decreases count - line,
    {
        let rows = visual_rows(doc, line, true, cols);
        total = total.saturating_add(rows.len());
        line = line + 1;
    }
    if total >= 1 {
        total
    } else {
        1
    }
}

/// The first of `rows`, from the `i`-th on, that holds `off` (its ends
/// included); the last row if none does.
pub open spec fn first_holding(rows: Seq<(usize, usize)>, off: int, i: int) -> int
    decreases rows.len() - i,
{
    if i >= rows.len() {
        rows.len() - 1
    } else if rows[i].0 <= off <= rows[i].1 {
        i
    } else {
        first_holding(rows, off, i + 1)
    }
}

/// The screen row of the caret at `offset` when words wrap: the rows of the
/// lines before its line, then the first row of its line that holds it.
pub open spec fn caret_row_of(text: Seq<u8>, starts: Seq<usize>, offset: int, cols: int) -> usize {
    let line = line_at(starts, offset);
    clamp(
        screen_rows(text, starts, true, cols, line).len() + first_holding(
            visual_rows_of(text, starts, line, true, cols),
            offset,
            0,
        ),
    )
}

fn holding_index(rows: &Vec<(usize, usize)>, off: usize) -> (r: usize)
    requires
        rows@.len() >= 1,
    ensures
        r == first_holding(rows@, off as int, 0),
{
    let mut i: usize = 0;
    while i < rows.len()
        invariant
            i <= rows@.len(),
            rows@.len() >= 1,
            first_holding(rows@, off as int, 0) == first_holding(rows@, off as int, i as int),
        decreases rows@.len() - i,
    {
        let (a, b) = rows[i];
        if off >= a && off <= b {
            return i;
        }
        i = i + 1;
    }
    rows.len() - 1
}

/// The screen row of the caret at `offset` when words wrap at `cols`
/// characters.
pub fn caret_visual_row(doc: &Document, offset: usize, cols: usize) -> (r: usize)
    requires
        doc.wf(),
        cols >= 1,
    ensures
        r == caret_row_of(doc.text(), doc.line_index().starts(), offset as int, cols as int),
{
    let ghost text = doc.text();
    let ghost starts = doc.line_index().starts();
    // Reading the count brings in that it fits a usize.
    let _count = doc.lines().line_count();
    let line = doc.lines().line_of_offset(offset);
    let mut visual_index: usize = 0;
    let mut logical: usize = 0;
    while logical < line
        invariant
            doc.wf(),
            cols >= 1,
            text == doc.text(),
            starts == doc.line_index().starts(),
            line < starts.len(),
            logical <= line,
            visual_index == clamp(screen_rows(text, starts, true, cols as int, logical as int).len() as int),
        decreases line - logical,
    {
        let rows = visual_rows(doc, logical, true, cols);
        visual_index = visual_index.saturating_add(rows.len());
        logical = logical + 1;
    }
    let rows = visual_rows(doc, line, true, cols);
    let i = holding_index(&rows, offset);
    visual_index.saturating_add(i)
}

/// The first visible row after scrolling just far enough that `row` shows,
/// with `visible` rows on screen from `first`.
pub open spec fn shown_from(first: int, row: int, visible: int) -> int {
    if row < first {
        row
    } else if row >= first + visible {
        row + 1 - visible
    } else {
        first
    }
}

/// The first visible row once `row` is brought into view: unchanged when
/// `row` already shows, else the least scroll that shows it.
pub fn scroll_to_show(first: usize, row: usize, visible: usize) -> (r: usize)
    requires
        first + visible <= usize::MAX,
        row >= first + visible ==> row < usize::MAX,
    ensures
        r == shown_from(first as int, row as int, visible as int),
        visible >= 1 ==> r <= row < r + visible,
        first <= row < first + visible ==> r == first,
{
    if row < first {
        row
    } else if row >= first + visible {
        row + 1 - visible
    } else {
        first
    }
}

/// The last row the view may start at: the last screen row.
pub fn last_first_row(doc: &Document, word_wrap: bool, cols: usize) -> (r: usize)
    requires
        doc.wf(),
        cols >= 1,
    ensures
        r == total_rows_of(doc.text(), doc.line_index().starts(), word_wrap, cols as int) - 1,
{
    if word_wrap {
        total_visual_rows(doc, true, cols) - 1
    } else {
        doc.lines().line_count().saturating_sub(1)
    }
}

/// The first visible row after paging: `page` rows up (not past the top)
/// or down, and no further than `last`.
pub fn page_scroll(first: usize, page: usize, last: usize, down: bool) -> (r: usize)
    ensures
        r == {
            let next = if down {
                first + page
            } else if first >= page {
                first - page
            } else {
                0
            };
            if next <= last {
                next
            } else {
                last as int
            }
        },
{
    let next = if down {
        first.saturating_add(page)
    } else {
        first.saturating_sub(page)
    };
    if next < last {
        next
    } else {
        last
    }
}

/// The first visible row after scrolling `delta` rows from `first`: no
/// less than 0 and no more than `last`.
pub open spec fn scrolled_to(first: usize, delta: i32, last: int) -> int {
    let next = (first as i32) + delta;
    let n = if next < 0 {
        0
    } else {
        next
    };
    if n <= last {
        n
    } else {
        last
    }
}

/// The first visible row after scrolling `delta` rows from `first`, held
/// between the top and the last row (the last line when words do not
/// wrap).
pub fn scroll_by_lines(doc: &Document, first: usize, delta: i32, word_wrap: bool, cols: usize) -> (r: usize)
    requires
        doc.wf(),
        cols >= 1,
        i32::MIN <= (first as i32) + delta <= i32::MAX,
    ensures
        r == scrolled_to(first, delta, total_rows_of(doc.text(), doc.line_index().starts(), word_wrap, cols as int) - 1),
{
    let max_first = last_first_row(doc, word_wrap, cols);
    let f: i32 = first as i32;
    let next: i32 = f + delta;
    let n: usize = if next < 0 {
        0
    } else {
        next as usize
    };
    if n < max_first {
        n
    } else {
        max_first
    }
}

/// The byte offset at column `col` of screen row `row` when words wrap;
/// the end of the document past the last row.
pub open spec fn offset_at_row_of(text: Seq<u8>, starts: Seq<usize>, cols: int, row: int, col: int) -> int {
    let rows = screen_rows(text, starts, true, cols, starts.len() as int);
    if row <= usize::MAX && row < rows.len() {
        offset_in_range_of(text, rows[row].0 as int, rows[row].1 as int, col)
    } else {
        text.len() as int
    }
}

/// The byte offset at column `col` of the screen row `target` rows below
/// row `origin`, when words wrap at `cols` characters.
pub fn offset_at_visual_row(doc: &Document, cols: usize, origin: usize, target: usize, col: usize) -> (r: usize)
    requires
        doc.wf(),
        cols >= 1,
    ensures
        r == offset_at_row_of(doc.text(), doc.line_index().starts(), cols as int, origin + target, col as int),
{
    let ghost text = doc.text();
    let ghost starts = doc.line_index().starts();
    let count = doc.lines().line_count();
    if target > usize::MAX - origin {
        return doc.len();
    }
    let want = origin + target;
    let mut seen: usize = 0;
    let mut logical: usize = 0;
    while logical < count
        invariant
            doc.wf(),
            cols >= 1,
            text == doc.text(),
            starts == doc.line_index().starts(),
            count == starts.len(),
            logical <= count,
            want == origin + target,
            seen == screen_rows(text, starts, true, cols as int, logical as int).len(),
            seen <= want,
        decreases count - logical,
    {
        let rows = visual_rows(doc, logical, true, cols);
        let ghost k = logical as int;
        let mut j: usize = 0;
        while j < rows.len()
            invariant
                doc.wf(),
                cols >= 1,
                text == doc.text(),
                starts == doc.line_index().starts(),
                count == starts.len(),
                0 <= k < count,
                want == origin + target,
                rows@ == visual_rows_of(text, starts, k, true, cols as int),
                j <= rows@.len(),
                seen == screen_rows(text, starts, true, cols as int, k).len() + j,
                seen <= want,
            decreases rows@.len() - j,
        {
            if seen == want {
                let (a, b) = rows[j];
                proof {
                    lemma_screen_rows_prefix(text, starts, true, cols as int, k + 1, count as int);
                    assert(screen_rows(text, starts, true, cols as int, k + 1)[seen as int] == rows@[j as int]);
                }
                return offset_in_range(doc, a, b, col);
            }
            seen = seen + 1;
            j = j + 1;
        }
        logical = logical + 1;
    }
    doc.len()
}

/// The first line, of the `starts.len()` lines, with a row at or past
/// screen row `row`, looking from line `k` on; line 0 if none.
pub open spec fn line_reaching(text: Seq<u8>, starts: Seq<usize>, cols: int, row: int, k: int) -> int
    decreases starts.len() - k,
{
    if k >= starts.len() {
        0
    } else if screen_rows(text, starts, true, cols, k + 1).len() > row {
        k
    } else {
        line_reaching(text, starts, cols, row, k + 1)
    }
}

/// The line that screen row `row` belongs to when words wrap (line 0 past
/// the last row).
pub fn first_line_on_screen(doc: &Document, cols: usize, row: usize) -> (r: usize)
    requires
        doc.wf(),
        cols >= 1,
    ensures
        r == line_reaching(doc.text(), doc.line_index().starts(), cols as int, row as int, 0),
{
    let ghost text = doc.text();
    let ghost starts = doc.line_index().starts();
    let count = doc.lines().line_count();
    let mut v: usize = 0;
    let mut logical: usize = 0;
    while logical < count
        invariant
            doc.wf(),
            cols >= 1,
            text == doc.text(),
            starts == doc.line_index().starts(),
            count == starts.len(),
            logical <= count,
            v == screen_rows(text, starts, true, cols as int, logical as int).len(),
            v <= row,
            line_reaching(text, starts, cols as int, row as int, 0) == line_reaching(
                text,
                starts,
                cols as int,
                row as int,
                logical as int,
            ),
        decreases count - logical,
    {
        let rows = visual_rows(doc, logical, true, cols);
        if rows.len() > row - v {
            return logical;
        }
        v = v + rows.len();
        logical = logical + 1;
    }
    0
}

/// The horizontal scroll after bringing the caret at `caret_x` into a view
/// `avail` wide that starts at `scroll_x`, with `margin` to spare.
pub open spec fn scroll_x_showing(scroll_x: int, caret_x: int, avail: int, margin: int) -> int {
    if caret_x < scroll_x {
        if caret_x - margin < i32::MIN {
            i32::MIN as int
        } else if caret_x - margin > i32::MAX {
            i32::MAX as int
        } else {
            caret_x - margin
        }
    } else if caret_x >= scroll_x + avail {
        caret_x - avail + margin
    } else {
        scroll_x
    }
}

/// The horizontal scroll that brings the caret at `caret_x` into view.
pub fn horizontal_scroll_to_show(scroll_x: i32, caret_x: i32, avail: i32, margin: i32) -> (r: i32)
    requires
        caret_x >= scroll_x ==> i32::MIN <= scroll_x + avail <= i32::MAX,
        caret_x >= scroll_x && caret_x >= scroll_x + avail ==> i32::MIN <= caret_x - avail <= i32::MAX
            && i32::MIN <= caret_x - avail + margin <= i32::MAX,
    ensures
        r == scroll_x_showing(scroll_x as int, caret_x as int, avail as int, margin as int),
{
    if caret_x < scroll_x {
        let d: i64 = caret_x as i64 - margin as i64;
        if d < i32::MIN as i64 {
            i32::MIN
        } else if d > i32::MAX as i64 {
            i32::MAX
        } else {
            d as i32
        }
    } else if caret_x >= scroll_x + avail {
        caret_x - avail + margin
    } else {
        scroll_x
    }
}

/// What a scroll bar asks for.
#[derive(Debug, Clone, Copy, PartialEq, Eq, Structural)]
pub enum ScrollRequest {
    LineBack,
    LineForward,
    PageBack,
    PageForward,
    ToStart,
    ToEnd,
    /// The thumb was dragged to this position.
    Track(i32),
    Other,
}

/// The position a scroll bar request asks for, from `pos`, with steps of
/// `line` and `page` and the far end at `end`.
pub open spec fn requested_position(request: ScrollRequest, pos: int, line: int, page: int, end: int) -> int {
    match request {
        ScrollRequest::LineBack => pos - line,
        ScrollRequest::LineForward => pos + line,
        ScrollRequest::PageBack => pos - page,
        ScrollRequest::PageForward => pos + page,
        ScrollRequest::ToStart => 0,
        ScrollRequest::ToEnd => end,
        ScrollRequest::Track(t) => t as int,
        ScrollRequest::Other => pos,
    }
}

/// The new scroll position after a scroll bar request, held between 0 and
/// `max`; none where the requested position does not fit an `i32` or
/// `max` is negative.
pub fn scrollbar_target(request: ScrollRequest, pos: i32, line: i32, page: i32, end: i32, max: i32) -> (r: Option<i32>)
    ensures
        ({
            let want = requested_position(request, pos as int, line as int, page as int, end as int);
            if i32::MIN <= want <= i32::MAX && max >= 0 {
                r == Some(
                    if want < 0 {
                        0i32
                    } else if want > max {
                        max
                    } else {
                        want as i32
                    },
                )
            } else {
                r is None
            }
        }),
{
    let wide_pos = pos as i64;
    let want: i64 = match request {
        ScrollRequest::LineBack => wide_pos - line as i64,
        ScrollRequest::LineForward => wide_pos + line as i64,
        ScrollRequest::PageBack => wide_pos - page as i64,
        ScrollRequest::PageForward => wide_pos + page as i64,
        ScrollRequest::ToStart => 0,
        ScrollRequest::ToEnd => end as i64,
        ScrollRequest::Track(t) => t as i64,
        ScrollRequest::Other => wide_pos,
    };
    if want < i32::MIN as i64 || want > i32::MAX as i64 || max < 0 {
        return None;
    }
    let w = want as i32;
    if w < 0 {
        Some(0)
    } else if w > max {
        Some(max)
    } else {
        Some(w)
    }
}

/// How many characters of `s` start before byte `b` of its UTF-8 form.
pub open spec fn chars_before(s: Seq<char>, b: int) -> nat
    decreases s.len(),
{
    if s.len() == 0 || b <= 0 {
        0
    } else {
        1 + chars_before(s.drop_first(), b - utf8_len(seq![s[0]]))
    }
}

/// The bytes `s0 .. e0` where `span` meets the clip `clip_start ..
/// clip_end` of a line `len` bytes long.
pub open spec fn clipped_span(span: TokenSpan, clip_start: int, clip_end: int, len: int) -> (int, int) {
    let s0 = if span.start >= clip_start { span.start as int } else { clip_start };
    let e1 = if span.end <= clip_end { span.end as int } else { clip_end };
    let e0 = if e1 <= len { e1 } else { len };
    (s0, e0)
}

/// The piece of `span` to paint within bytes `clip_start .. clip_end` of
/// `line`, widened to character boundaries: the number of characters before
/// it, its start and its end. None when nothing of the span shows.
pub fn span_piece(line: &str, span: TokenSpan, clip_start: usize, clip_end: usize) -> (r: Option<(usize, usize, usize)>)
    ensures
        ({
            let bytes = line.spec_bytes();
            let c = clipped_span(span, clip_start as int, clip_end as int, bytes.len() as int);
            &&& r is None <==> (clip_start >= clip_end || bytes.len() == 0 || c.0 >= c.1)
            &&& r matches Some((col, a, b)) ==> {
                &&& a <= c.0
                &&& vstd::utf8::is_char_boundary(bytes, a as int)
                &&& forall|j: int| a < j <= c.0 ==> !vstd::utf8::is_char_boundary(bytes, j)
                &&& c.1 <= b <= bytes.len()
                &&& vstd::utf8::is_char_boundary(bytes, b as int)
                &&& forall|j: int| c.1 <= j < b ==> !vstd::utf8::is_char_boundary(bytes, j)
                &&& col == chars_before(line@, a as int)
            }
        }),
{
    let len = line.as_bytes().len();
    if clip_start >= clip_end || len == 0 {
        return None;
    }
    let s0 = if span.start >= clip_start { span.start } else { clip_start };
    let e1 = if span.end <= clip_end { span.end } else { clip_end };
    let e0 = if e1 <= len { e1 } else { len };
    if s0 >= e0 {
        return None;
    }
    let a = floor_char_boundary(line, s0);
    let b = ceil_char_boundary(line, e0);
    proof {
        vstd::utf8::encode_utf8_valid_utf8(line@);
        vstd::utf8::is_char_boundary_start_end_of_seq(line.spec_bytes());
    }
    let chars = chars_of(line);
    let ghost cs = chars@;
    let mut col: usize = 0;
    let mut sum: usize = 0;
    proof {
        assert(cs.skip(0) =~= cs);
    }
    while col < chars.len() && sum < a
        invariant
            cs == chars@,
            cs == line@,
            col <= cs.len(),
            sum <= a,
            chars_before(cs, a as int) == col + chars_before(cs.skip(col as int), a - sum),
        decreases cs.len() - col,
    {
        let w = utf8_width(chars[col]);
        let ghost before = sum;
        proof {
            let rest = cs.skip(col as int);
            assert(rest[0] == cs[col as int]);
            assert(rest.drop_first() =~= cs.skip(col + 1));
            assert(seq![rest[0]] =~= seq![cs[col as int]]);
            assert(chars_before(rest, a - sum) == 1 + chars_before(rest.drop_first(), a - sum - w));
        }
        sum = if w < a - sum { sum + w } else { a };
        proof {
            if sum == a {
                assert(chars_before(cs.skip(col + 1), a - before - w) == 0);
                assert(chars_before(cs.skip(col + 1), a - sum) == 0);
            }
        }
        col = col + 1;
    }
    proof {
        let rest = cs.skip(col as int);
        if col >= cs.len() {
            assert(rest.len() == 0);
        }
    }
    Some((col, a, b))
}

/// The part of the selection `sel_start .. sel_end` on the line
/// `line_start .. line_end`, as byte offsets from the line's start; none
/// when they do not overlap.
pub fn selection_on_line(sel_start: usize, sel_end: usize, line_start: usize, line_end: usize) -> (r: Option<(usize, usize)>)
    ensures
        ({
            let a = if sel_start >= line_start { sel_start as int } else { line_start as int };
            let b = if sel_end <= line_end { sel_end as int } else { line_end as int };
            if a < b {
                r == Some(((a - line_start) as usize, (b - line_start) as usize))
            } else {
                r is None
            }
        }),
{
    let a = if sel_start >= line_start { sel_start } else { line_start };
    let b = if sel_end <= line_end { sel_end } else { line_end };
    if a >= b {
        return None;
    }
    Some((a - line_start, b - line_start))
}

} // verus!

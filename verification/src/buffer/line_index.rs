use vstd::prelude::*;

verus! {

/// `k` is the offset at which a line begins in `text`: the start of the
/// text, or the offset just past a line feed.
pub open spec fn is_line_start(text: Seq<u8>, k: int) -> bool {
    k == 0 || (1 <= k <= text.len() && text[k - 1] == 10u8)
}

pub open spec fn strictly_increasing(s: Seq<usize>) -> bool {
    forall|i: int, j: int| 0 <= i < j < s.len() ==> s[i] < s[j]
}

/// `k` occurs in `s`.
pub open spec fn has(s: Seq<usize>, k: int) -> bool {
    exists|i: int| 0 <= i < s.len() && s[i] == k
}

/// `starts` lists, in increasing order, exactly the line starts of `text`.
pub open spec fn indexes_lines(starts: Seq<usize>, text: Seq<u8>) -> bool {
    &&& strictly_increasing(starts)
    &&& forall|k: int| has(starts, k) <==> is_line_start(text, k)
}

/// The line that holds `offset` in an index whose line starts are
/// `starts`: the last line whose start is at or before it.
pub open spec fn line_at(starts: Seq<usize>, offset: int) -> int
    decreases starts.len(),
{
    if starts.len() <= 1 {
        0
    } else if starts.last() <= offset {
        starts.len() - 1
    } else {
        line_at(starts.drop_last(), offset)
    }
}

proof fn lemma_line_at(starts: Seq<usize>, offset: int, r: int)
    requires
        strictly_increasing(starts),
        0 <= r < starts.len(),
        starts[r] <= offset,
        r + 1 < starts.len() ==> offset < starts[r + 1],
    ensures
        r == line_at(starts, offset),
    decreases starts.len(),
{
    if starts.len() > 1 {
        if starts.last() <= offset {
            if r + 1 < starts.len() {
                assert(starts[r + 1] <= starts.last());
            }
        } else {
            lemma_line_at(starts.drop_last(), offset, r);
        }
    }
}

/// The last start of an index of `text`'s lines lies within the text.
pub proof fn lemma_indexed_last_start(starts: Seq<usize>, text: Seq<u8>)
    requires
        indexes_lines(starts, text),
        starts.len() > 0,
    ensures
        starts.last() <= text.len(),
{
    assert(has(starts, starts.last() as int));
}

/// `text` with `ins` put in at offset `pos`.
pub open spec fn spliced_in(text: Seq<u8>, pos: int, ins: Seq<u8>) -> Seq<u8> {
    text.take(pos) + ins + text.skip(pos)
}

/// Taking out the bytes just put in at `pos` gives the text back, and
/// they are the bytes that were put in.
pub proof fn lemma_cut_undoes_splice(text: Seq<u8>, pos: int, ins: Seq<u8>)
    requires
        0 <= pos <= text.len(),
    ensures
        cut_out(spliced_in(text, pos, ins), pos, ins.len() as int) == text,
        spliced_in(text, pos, ins).subrange(pos, pos + ins.len()) == ins,
{
    let t = spliced_in(text, pos, ins);
    assert(cut_out(t, pos, ins.len() as int) =~= text);
    assert(t.subrange(pos, pos + ins.len()) =~= ins);
}

/// `text` without the `len` bytes that start at offset `start`.
pub open spec fn cut_out(text: Seq<u8>, start: int, len: int) -> Seq<u8> {
    text.take(start) + text.skip(start + len)
}

/// How the line starts change when `ins` is put in at `pos`: starts up to
/// `pos` stay, later ones move by the inserted length, and each line feed of
/// `ins` opens a new line.
pub open spec fn insert_moves_starts(old: Seq<usize>, new: Seq<usize>, pos: int, ins: Seq<u8>) -> bool {
    &&& strictly_increasing(new)
    &&& forall|k: int|
        has(new, k) <==> {
            ||| (has(old, k) && k <= pos)
            ||| (k > pos + ins.len() && has(old, k - ins.len()))
            ||| (pos < k <= pos + ins.len() && ins[k - pos - 1] == 10u8)
        }
}

/// How the line starts change when `len` bytes at `start` are removed:
/// starts up to `start` stay, starts inside the removed range and at its
/// end vanish (the line that ended there now runs on), and starts past its
/// end move back by `len`.
pub open spec fn delete_moves_starts(old: Seq<usize>, new: Seq<usize>, start: int, len: int) -> bool {
    &&& strictly_increasing(new)
    &&& forall|k: int|
        has(new, k) <==> {
            ||| (has(old, k) && k <= start)
            ||| (k > start && has(old, k + len))
        }
}

/// Offsets just past each line feed of `chunk`, shifted by `base`.
pub open spec fn feeds_after(chunk: Seq<u8>, base: int) -> Seq<usize>
    decreases chunk.len(),
{
    if chunk.len() == 0 {
        Seq::empty()
    } else {
        let rest = feeds_after(chunk.drop_last(), base);
        if chunk.last() == 10u8 {
            rest.push((base + chunk.len()) as usize)
        } else {
            rest
        }
    }
}

/// How many line feeds `chunk` holds.
pub open spec fn line_feeds_in(chunk: Seq<u8>) -> nat
    decreases chunk.len(),
{
    if chunk.len() == 0 {
        0
    } else {
        line_feeds_in(chunk.drop_last()) + if chunk.last() == 10u8 { 1nat } else { 0nat }
    }
}

/// There is one offset past a line feed for each line feed.
pub proof fn lemma_feeds_count(chunk: Seq<u8>, base: int)
    ensures
        feeds_after(chunk, base).len() == line_feeds_in(chunk),
    decreases chunk.len(),
{
    if chunk.len() > 0 {
        lemma_feeds_count(chunk.drop_last(), base);
    }
}

/// Where a line start `p` ends up after `len` bytes at `start` are
/// removed (a start inside the removed range is bounded by `start`).
pub open spec fn delete_image(p: int, start: int, len: int) -> int {
    if p <= start {
        p
    } else if p >= start + len {
        p - len
    } else {
        start
    }
}

/// Entry `t` of `old` yields line start `k` after `len` bytes at `start`
/// are removed.
pub open spec fn survives_delete(old: Seq<usize>, t: int, k: int, start: int, len: int) -> bool {
    ||| (old[t] == k && k <= start)
    ||| (k > start && old[t] == k + len)
}

pub proof fn lemma_feeds_after(chunk: Seq<u8>, base: int)
    requires
        0 <= base,
        base + chunk.len() <= usize::MAX,
    ensures
        strictly_increasing(feeds_after(chunk, base)),
        forall|i: int|
            0 <= i < feeds_after(chunk, base).len() ==> base < #[trigger] feeds_after(chunk, base)[i]
                <= base + chunk.len(),
        forall|k: int|
            has(feeds_after(chunk, base), k) <==> (base < k <= base + chunk.len() && chunk[k - base - 1]
                == 10u8),
    decreases chunk.len(),
{
    if chunk.len() > 0 {
        let rest = chunk.drop_last();
        lemma_feeds_after(rest, base);
        let f = feeds_after(chunk, base);
        let fr = feeds_after(rest, base);
        assert forall|k: int| has(f, k) <==> (base < k <= base + chunk.len() && chunk[k - base - 1] == 10u8) by {
            if has(f, k) {
                let i = choose|i: int| 0 <= i < f.len() && f[i] == k;
                if i < fr.len() {
                    assert(has(fr, k));
                }
            }
            if base < k <= base + chunk.len() && chunk[k - base - 1] == 10u8 {
                if k < base + chunk.len() {
                    assert(rest[k - base - 1] == chunk[k - base - 1]);
                    assert(has(fr, k));
                    let i = choose|i: int| 0 <= i < fr.len() && fr[i] == k;
                    assert(f[i] == k);
                } else {
                    assert(f[f.len() - 1] == k);
                }
            }
        }
    }
}

/// An index that lists the line starts of a text still lists them after
/// `ins` is put in at `pos`, once updated as `apply_insert` updates it.
pub proof fn lemma_insert_keeps_index(
    old_starts: Seq<usize>,
    new_starts: Seq<usize>,
    text: Seq<u8>,
    pos: int,
    ins: Seq<u8>,
)
    requires
        indexes_lines(old_starts, text),
        0 <= pos <= text.len(),
        insert_moves_starts(old_starts, new_starts, pos, ins),
    ensures
        indexes_lines(new_starts, spliced_in(text, pos, ins)),
{
    let d = spliced_in(text, pos, ins);
    let n = ins.len() as int;
    assert(d.len() == text.len() + n);
    assert forall|k: int| has(new_starts, k) <==> is_line_start(d, k) by {
        assert(has(old_starts, k) <==> is_line_start(text, k));
        assert(has(old_starts, k - n) <==> is_line_start(text, k - n));
        if 1 <= k <= d.len() {
            if k - 1 < pos {
                assert(d[k - 1] == text[k - 1]);
            } else if k - 1 < pos + n {
                assert(d[k - 1] == ins[k - 1 - pos]);
            } else {
                assert(d[k - 1] == text[k - 1 - n]);
            }
        }
    }
}

/// An index that lists the line starts of a text still lists them after
/// `len` bytes at `start` are removed, once updated as `apply_delete`
/// updates it.
pub proof fn lemma_delete_keeps_index(
    old_starts: Seq<usize>,
    new_starts: Seq<usize>,
    text: Seq<u8>,
    start: int,
    len: int,
)
    requires
        indexes_lines(old_starts, text),
        0 <= start,
        0 <= len,
        start + len <= text.len(),
        delete_moves_starts(old_starts, new_starts, start, len),
    ensures
        indexes_lines(new_starts, cut_out(text, start, len)),
{
    let d = cut_out(text, start, len);
    assert(d.len() == text.len() - len);
    assert forall|k: int| has(new_starts, k) <==> is_line_start(d, k) by {
        assert(has(old_starts, k) <==> is_line_start(text, k));
        assert(has(old_starts, k + len) <==> is_line_start(text, k + len));
        if 1 <= k <= d.len() {
            if k - 1 < start {
                assert(d[k - 1] == text[k - 1]);
            } else {
                assert(d[k - 1] == text[k - 1 + len]);
            }
        }
    }
}

/// Two increasing lists of the same offsets are the same list.
pub proof fn lemma_same_starts(s1: Seq<usize>, s2: Seq<usize>)
    requires
        strictly_increasing(s1),
        strictly_increasing(s2),
        forall|k: int| has(s1, k) <==> has(s2, k),
    ensures
        s1 == s2,
    decreases s1.len(),
{
    if s1.len() == 0 {
        if s2.len() > 0 {
            assert(has(s2, s2[0] as int));
        }
        assert(s2 =~= s1);
    } else {
        assert(has(s1, s1.last() as int));
        assert(s2.len() > 0);
        assert(has(s2, s2.last() as int));
        let i = choose|i: int| 0 <= i < s2.len() && s2[i] == s1.last();
        let j = choose|j: int| 0 <= j < s1.len() && s1[j] == s2.last();
        if i < s2.len() - 1 {
            assert(s2[i] < s2.last());
        }
        if j < s1.len() - 1 {
            assert(s1[j] < s1.last());
        }
        assert(s1.last() == s2.last());
        let t1 = s1.drop_last();
        let t2 = s2.drop_last();
        assert forall|k: int| has(t1, k) <==> has(t2, k) by {
            if has(t1, k) {
                let x = choose|x: int| 0 <= x < t1.len() && t1[x] == k;
                assert(s1[x] < s1.last());
                assert(has(s1, k));
                let y = choose|y: int| 0 <= y < s2.len() && s2[y] == k;
                assert(y != s2.len() - 1);
                assert(t2[y] == k);
            }
            if has(t2, k) {
                let x = choose|x: int| 0 <= x < t2.len() && t2[x] == k;
                assert(s2[x] < s2.last());
                assert(has(s2, k));
                let y = choose|y: int| 0 <= y < s1.len() && s1[y] == k;
                assert(y != s1.len() - 1);
                assert(t1[y] == k);
            }
        }
        lemma_same_starts(t1, t2);
        assert(s1 =~= t1.push(s1.last()));
        assert(s2 =~= t2.push(s2.last()));
    }
}

/// An index lists the line starts of a text one way only: any two indexes
/// of the same text hold the same starts.
pub proof fn lemma_index_unique(s1: Seq<usize>, s2: Seq<usize>, text: Seq<u8>)
    requires
        indexes_lines(s1, text),
        indexes_lines(s2, text),
    ensures
        s1 == s2,
{
    lemma_same_starts(s1, s2);
}

/// Scanning a text piece by piece indexes it as scanning it whole does:
/// the line starts of `a`, followed by those `scan_append` records for `b`
/// at offset `a.len()`, are the line starts of `a + b`.
pub proof fn lemma_scan_append_concat(starts: Seq<usize>, a: Seq<u8>, b: Seq<u8>)
    requires
        indexes_lines(starts, a),
        a.len() + b.len() <= usize::MAX,
    ensures
        indexes_lines(starts + feeds_after(b, a.len() as int), a + b),
{
    let base = a.len() as int;
    let f = feeds_after(b, base);
    let s = starts + f;
    let t = a + b;
    lemma_feeds_after(b, base);
    assert forall|k: int| has(starts, k) implies k <= base by {
        let i = choose|i: int| 0 <= i < starts.len() && starts[i] == k;
        assert(is_line_start(a, k));
    }
    assert forall|x: int, y: int| 0 <= x < y < s.len() implies s[x] < s[y] by {
        if y >= starts.len() {
            assert(s[y] == f[y - starts.len()]);
            if x < starts.len() {
                assert(has(starts, s[x] as int));
            } else {
                assert(s[x] == f[x - starts.len()]);
            }
        }
    }
    assert forall|k: int| has(s, k) <==> is_line_start(t, k) by {
        if has(s, k) {
            let i = choose|i: int| 0 <= i < s.len() && s[i] == k;
            if i < starts.len() {
                assert(has(starts, k));
                if 1 <= k {
                    assert(t[k - 1] == a[k - 1]);
                }
            } else {
                assert(has(f, k));
                assert(t[k - 1] == b[k - base - 1]);
            }
        }
        if is_line_start(t, k) {
            if k <= base {
                if 1 <= k {
                    assert(t[k - 1] == a[k - 1]);
                }
                assert(has(starts, k));
                let i = choose|i: int| 0 <= i < starts.len() && starts[i] == k;
                assert(s[i] == k);
            } else {
                assert(t[k - 1] == b[k - base - 1]);
                assert(has(f, k));
                let i = choose|i: int| 0 <= i < f.len() && f[i] == k;
                assert(s[starts.len() + i] == k);
            }
        }
    }
}

/// After `len` bytes at `start` are removed, an index updated as
/// `apply_delete` updates it holds exactly the starts of a fresh index of
/// the new text (such as `from_bytes` builds).
pub proof fn lemma_delete_matches_fresh_index(
    old_starts: Seq<usize>,
    new_starts: Seq<usize>,
    fresh: Seq<usize>,
    text: Seq<u8>,
    start: int,
    len: int,
)
    requires
        indexes_lines(old_starts, text),
        0 <= start,
        0 <= len,
        start + len <= text.len(),
        delete_moves_starts(old_starts, new_starts, start, len),
        indexes_lines(fresh, cut_out(text, start, len)),
    ensures
        new_starts == fresh,
{
    lemma_delete_keeps_index(old_starts, new_starts, text, start, len);
    lemma_index_unique(new_starts, fresh, cut_out(text, start, len));
}

/// After `ins` is put in at `pos`, an index updated as `apply_insert`
/// updates it holds exactly the starts of a fresh index of the new text.
pub proof fn lemma_insert_matches_fresh_index(
    old_starts: Seq<usize>,
    new_starts: Seq<usize>,
    fresh: Seq<usize>,
    text: Seq<u8>,
    pos: int,
    ins: Seq<u8>,
)
    requires
        indexes_lines(old_starts, text),
        0 <= pos <= text.len(),
        insert_moves_starts(old_starts, new_starts, pos, ins),
        indexes_lines(fresh, spliced_in(text, pos, ins)),
    ensures
        new_starts == fresh,
{
    lemma_insert_keeps_index(old_starts, new_starts, text, pos, ins);
    lemma_index_unique(new_starts, fresh, spliced_in(text, pos, ins));
}

/// An index of `a` extended by `scan_append` over `b` holds exactly the
/// starts of a fresh index of `a + b`.
pub proof fn lemma_scan_append_matches_fresh_index(starts: Seq<usize>, fresh: Seq<usize>, a: Seq<u8>, b: Seq<u8>)
    requires
        indexes_lines(starts, a),
        a.len() + b.len() <= usize::MAX,
        indexes_lines(fresh, a + b),
    ensures
        starts + feeds_after(b, a.len() as int) == fresh,
{
    lemma_scan_append_concat(starts, a, b);
    lemma_index_unique(starts + feeds_after(b, a.len() as int), fresh, a + b);
}

/// Line-start offsets in logical UTF-8 document coordinates.
#[derive(Debug, Clone)]
pub struct LineIndex {
    starts: Vec<usize>,
    complete: bool,
    scan_offset: usize,
}

impl LineIndex {
    /// The recorded line starts, in order.
    pub closed spec fn starts(&self) -> Seq<usize> {
        self.starts@
    }

    /// How far into the document the index has been built.
    pub closed spec fn scanned(&self) -> usize {
        self.scan_offset
    }

    /// Whether the index covers the whole document.
    pub closed spec fn completed(&self) -> bool {
        self.complete
    }

    /// The index starts with line 0 at offset 0 and its starts increase.
    pub open spec fn wf(&self) -> bool {
        &&& self.starts().len() >= 1
        &&& self.starts()[0] == 0
        &&& strictly_increasing(self.starts())
    }

    /// The greatest recorded line start.
    pub open spec fn last_start(&self) -> usize {
        self.starts().last()
    }

    pub fn new() -> (r: Self)
        ensures
            r.wf(),
            r.starts() == seq![0usize],
            r.completed(),
            r.scanned() == 0,
    {
        let mut starts: Vec<usize> = Vec::new();
        starts.push(0);
        Self { starts, complete: true, scan_offset: 0 }
    }

    pub fn is_complete(&self) -> (r: bool)
        ensures
            r == self.completed(),
    {
        self.complete
    }

    pub fn scan_cursor(&self) -> (r: usize)
        ensures
            r == self.scanned(),
    {
        self.scan_offset
    }

    pub fn mark_incomplete(&mut self)
        ensures
            final(self).starts() == old(self).starts(),
            final(self).scanned() == old(self).scanned(),
            !final(self).completed(),
    {
        self.complete = false;
    }

    pub fn mark_complete(&mut self)
        ensures
            final(self).starts() == old(self).starts(),
            final(self).scanned() == old(self).scanned(),
            final(self).completed(),
    {
        self.complete = true;
    }

    pub fn line_count(&self) -> (r: usize)
        ensures
            r == self.starts().len(),
    {
        self.starts.len()
    }

    pub fn line_start(&self, line: usize) -> (r: Option<usize>)
        ensures
            line < self.starts().len() ==> r == Some(self.starts()[line as int]),
            line >= self.starts().len() ==> r is None,
    {
        if line < self.starts.len() {
            Some(self.starts[line])
        } else {
            None
        }
    }

    /// The line that holds `offset`: the last line whose start is at or
    /// before it.
    pub fn line_of_offset(&self, offset: usize) -> (r: usize)
        requires
            self.wf(),
        ensures
            r < self.starts().len(),
            self.starts()[r as int] <= offset,
            r + 1 < self.starts().len() ==> offset < self.starts()[r + 1],
            r == line_at(self.starts(), offset as int),
    {
        let mut lo: usize = 0;
        let mut hi: usize = self.starts.len();
        while lo + 1 < hi
            invariant
                self.wf(),
                0 <= lo < hi <= self.starts().len(),
                self.starts()[lo as int] <= offset,
                hi < self.starts().len() ==> offset < self.starts()[hi as int],
            decreases hi - lo,
        {
            let mid = lo + (hi - lo) / 2;
            if self.starts[mid] <= offset {
                lo = mid;
            } else {
                hi = mid;
            }
        }
        proof {
            lemma_line_at(self.starts(), offset as int, lo as int);
        }
        lo
    }

    /// Records the line starts found in `chunk`, the document bytes from
    /// `base_offset` on, and moves the scan cursor past it.
    pub fn scan_append(&mut self, chunk: &[u8], base_offset: usize)
        requires
            old(self).wf(),
            old(self).last_start() <= base_offset,
            base_offset + chunk@.len() <= usize::MAX,
        ensures
            final(self).wf(),
            final(self).starts() == old(self).starts() + feeds_after(chunk@, base_offset as int),
            final(self).scanned() == base_offset + chunk@.len(),
            final(self).completed() == old(self).completed(),
    {
        proof {
            lemma_feeds_after(chunk@, base_offset as int);
        }
        let n = chunk.len();
        let mut i: usize = 0;
        while i < n
            invariant
                n == chunk@.len(),
                i <= n,
                base_offset + n <= usize::MAX,
                self.completed() == old(self).completed(),
                self.starts() == old(self).starts() + feeds_after(chunk@.take(i as int), base_offset as int),
            decreases n - i,
        {
            assert(chunk@.take(i + 1).drop_last() =~= chunk@.take(i as int));
            if chunk[i] == 10u8 {
                self.starts.push(base_offset + i + 1);
            }
            i = i + 1;
        }
        assert(chunk@.take(n as int) =~= chunk@);
        self.scan_offset = base_offset + n;
        proof {
            let o = old(self).starts();
            let f = feeds_after(chunk@, base_offset as int);
            let s = self.starts();
            assert forall|a: int, b: int| 0 <= a < b < s.len() implies s[a] < s[b] by {
                if b >= o.len() {
                    assert(f[b - o.len()] == s[b]);
                    if a >= o.len() {
                        assert(f[a - o.len()] == s[a]);
                    } else {
                        assert(o[a] <= o.last());
                    }
                }
            }
        }
    }

    /// The index of the line starts of `bytes`, complete.
    pub fn from_bytes(bytes: &[u8]) -> (r: Self)
        requires
            bytes@.len() <= usize::MAX,
        ensures
            r.wf(),
            indexes_lines(r.starts(), bytes@),
            r.starts() == seq![0usize] + feeds_after(bytes@, 0),
            r.starts().len() == 1 + line_feeds_in(bytes@),
            r.completed(),
            r.scanned() == bytes@.len(),
    {
        let mut index = Self::new();
        index.scan_append(bytes, 0);
        index.scan_offset = bytes.len();
        index.complete = true;
        proof {
            lemma_feeds_after(bytes@, 0);
            lemma_feeds_count(bytes@, 0);
            let s = index.starts();
            let f = feeds_after(bytes@, 0);
            assert(s == seq![0usize] + f);
            assert forall|k: int| has(s, k) <==> is_line_start(bytes@, k) by {
                if has(s, k) {
                    let i = choose|i: int| 0 <= i < s.len() && s[i] == k;
                    if i > 0 {
                        assert(f[i - 1] == k);
                        assert(has(f, k));
                    }
                }
                if is_line_start(bytes@, k) {
                    if k == 0 {
                        assert(s[0] == 0);
                    } else {
                        assert(has(f, k));
                        let i = choose|i: int| 0 <= i < f.len() && f[i] == k;
                        assert(s[i + 1] == k);
                    }
                }
            }
        }
        index
    }

    /// Updates the index for `text` put in at `pos`.
    pub fn apply_insert(&mut self, pos: usize, text: &[u8])
        requires
            old(self).wf(),
            pos + text@.len() <= usize::MAX,
            old(self).last_start() + text@.len() <= usize::MAX,
            pos < old(self).scanned() ==> old(self).scanned() + text@.len() <= usize::MAX,
        ensures
            final(self).wf(),
            insert_moves_starts(old(self).starts(), final(self).starts(), pos as int, text@),
            final(self).scanned() == (if pos < old(self).scanned() {
                old(self).scanned() + text@.len()
            } else {
                old(self).scanned() as int
            }),
            final(self).completed() == old(self).completed(),
    {
        let n = text.len();
        if pos < self.scan_offset {
            self.scan_offset = self.scan_offset + n;
        }
        let ghost old_starts = self.starts@;
        let count = self.starts.len();
        let mut new_starts: Vec<usize> = Vec::new();
        let mut j: usize = 0;
        while j < count && self.starts[j] <= pos
            invariant
                self.starts@ == old_starts,
                old(self).starts() == old_starts,
                old(self).wf(),
                count == old_starts.len(),
                j <= count,
                new_starts@ == old_starts.take(j as int),
                forall|t: int| 0 <= t < j ==> old_starts[t] <= pos,
            decreases count - j,
        {
            new_starts.push(self.starts[j]);
            j = j + 1;
        }
        let j0 = j;
        assert(j0 < count ==> old_starts[j0 as int] > pos);
        proof {
            lemma_feeds_after(text@, pos as int);
        }
        let mut i: usize = 0;
        while i < n
            invariant
                n == text@.len(),
                i <= n,
                pos + n <= usize::MAX,
                new_starts@ == old_starts.take(j0 as int) + feeds_after(text@.take(i as int), pos as int),
            decreases n - i,
        {
            assert(text@.take(i + 1).drop_last() =~= text@.take(i as int));
            if text[i] == 10u8 {
                new_starts.push(pos + i + 1);
            }
            i = i + 1;
        }
        assert(text@.take(n as int) =~= text@);
        let ghost mid = new_starts@;
        while j < count
            invariant
                self.starts@ == old_starts,
                old(self).starts() == old_starts,
                old(self).wf(),
                old(self).last_start() + n <= usize::MAX,
                count == old_starts.len(),
                j0 <= j <= count,
                new_starts@.len() == mid.len() + (j - j0),
                forall|t: int| 0 <= t < mid.len() ==> new_starts@[t] == mid[t],
                forall|t: int| j0 <= t < j ==> new_starts@[mid.len() + t - j0] == old_starts[t] + n,
            decreases count - j,
        {
            assert(old_starts[j as int] <= old_starts.last());
            new_starts.push(self.starts[j] + n);
            j = j + 1;
        }
        proof {
            let o = old_starts;
            let f = feeds_after(text@, pos as int);
            let r = new_starts@;
            let a = j0 as int;
            let fl = f.len() as int;
            assert(mid.len() == a + fl);
            assert forall|t: int| 0 <= t < a implies r[t] == o[t] by {
                assert(mid[t] == o.take(a)[t]);
            }
            assert forall|t: int| 0 <= t < fl implies r[a + t] == f[t] by {
                assert(mid[a + t] == f[t]);
            }
            assert forall|x: int, y: int| 0 <= x < y < r.len() implies r[x] < r[y] by {
                if y < a {
                } else if y < a + fl {
                    assert(r[y] == f[y - a]);
                    if x >= a {
                        assert(r[x] == f[x - a]);
                    }
                } else {
                    assert(r[y] == o[a + y - a - fl] + n);
                    if x >= a + fl {
                        assert(r[x] == o[a + x - a - fl] + n);
                    } else if x >= a {
                        assert(r[x] == f[x - a]);
                    }
                }
            }
            assert forall|k: int|
                has(r, k) <==> {
                    ||| (has(o, k) && k <= pos)
                    ||| (k > pos + n && has(o, k - n))
                    ||| (pos < k <= pos + n && text@[k - pos - 1] == 10u8)
                } by {
                if has(r, k) {
                    let x = choose|x: int| 0 <= x < r.len() && r[x] == k;
                    if x < a {
                        assert(o[x] == k);
                    } else if x < a + fl {
                        assert(f[x - a] == k);
                        assert(has(f, k));
                    } else {
                        let t = a + x - a - fl;
                        assert(o[t] == k - n);
                        assert(o[t] > pos) by {
                            assert(o[a] <= o[t]);
                        }
                    }
                }
                if has(o, k) && k <= pos {
                    let x = choose|x: int| 0 <= x < o.len() && o[x] == k;
                    if x >= a {
                        assert(o[a] <= o[x]);
                    }
                    assert(r[x] == k);
                }
                if k > pos + n && has(o, k - n) {
                    let x = choose|x: int| 0 <= x < o.len() && o[x] == k - n;
                    assert(x >= a);
                    assert(r[a + fl + x - a] == k);
                }
                if pos < k <= pos + n && text@[k - pos - 1] == 10u8 {
                    assert(has(f, k));
                    let x = choose|x: int| 0 <= x < f.len() && f[x] == k;
                    assert(r[a + x] == k);
                }
            }
            if a == 0 {
                assert(o[0] == 0);
                assert(false);
            }
            assert(r[0] == 0);
        }
        self.starts = new_starts;
    }

    /// Updates the index for the removal of `deleted`, which stood at
    /// `start`.
    pub fn apply_delete(&mut self, start: usize, deleted: &[u8])
        requires
            old(self).wf(),
            start + deleted@.len() <= usize::MAX,
        ensures
            final(self).wf(),
            delete_moves_starts(old(self).starts(), final(self).starts(), start as int, deleted@.len() as int),
            final(self).scanned() == (if start < old(self).scanned() {
                if old(self).scanned() >= deleted@.len() {
                    old(self).scanned() - deleted@.len()
                } else {
                    0
                }
            } else {
                old(self).scanned() as int
            }),
            final(self).completed() == old(self).completed(),
    {
        let len = deleted.len();
        if start < self.scan_offset {
            self.scan_offset = self.scan_offset.saturating_sub(len);
        }
        let delete_end = start + len;
        let ghost o = self.starts@;
        let count = self.starts.len();
        let mut new_starts: Vec<usize> = Vec::new();
        let mut j: usize = 0;
        while j < count
            invariant
                self.starts@ == o,
                old(self).starts() == o,
                old(self).wf(),
                count == o.len(),
                delete_end == start + len,
                j <= count,
                strictly_increasing(new_starts@),
                j > 0 ==> new_starts@.len() > 0 && new_starts@[0] == 0,
                j > 0 ==> forall|t: int|
                    0 <= t < new_starts@.len() ==> new_starts@[t] <= delete_image(
                        o[j - 1] as int,
                        start as int,
                        len as int,
                    ),
                j == 0 ==> new_starts@.len() == 0,
                forall|k: int|
                    has(new_starts@, k) <==> exists|t: int|
                        0 <= t < j && #[trigger] survives_delete(o, t, k, start as int, len as int),
            decreases count - j,
        {
            let s = self.starts[j];
            let ghost before = new_starts@;
            proof {
                if j > 0 {
                    assert(o[j - 1] < o[j as int]);
                }
            }
            if s <= start {
                new_starts.push(s);
            } else if s > delete_end {
                new_starts.push(s - len);
            }
            proof {
                let r = new_starts@;
                assert forall|k: int|
                    has(r, k) <==> exists|t: int|
                        0 <= t < j + 1 && #[trigger] survives_delete(o, t, k, start as int, len as int) by {
                    if has(r, k) {
                        let x = choose|x: int| 0 <= x < r.len() && r[x] == k;
                        if x < before.len() {
                            assert(has(before, k));
                            let t = choose|t: int|
                                0 <= t < j && #[trigger] survives_delete(o, t, k, start as int, len as int);
                            assert(0 <= t < j + 1 && survives_delete(o, t, k, start as int, len as int));
                        } else {
                            assert(survives_delete(o, j as int, k, start as int, len as int));
                        }
                    }
                    if exists|t: int| 0 <= t < j + 1 && #[trigger] survives_delete(o, t, k, start as int, len as int) {
                        let t = choose|t: int| 0 <= t < j + 1 && #[trigger] survives_delete(o, t, k, start as int, len as int);
                        if t < j {
                            assert(has(before, k));
                            let x = choose|x: int| 0 <= x < before.len() && before[x] == k;
                            assert(r[x] == k);
                        } else {
                            if r.len() > before.len() {
                                assert(r[r.len() - 1] == k);
                            } else {
                                assert(before.len() > 0);
                                assert(before[before.len() - 1] == k);
                            }
                        }
                    }
                }
            }
            j = j + 1;
        }
        proof {
            let r = new_starts@;
            assert forall|k: int|
                has(r, k) <==> {
                    ||| (has(o, k) && k <= start)
                    ||| (k > start && has(o, k + len))
                } by {
                if has(r, k) {
                    let t = choose|t: int|
                        0 <= t < count && #[trigger] survives_delete(o, t, k, start as int, len as int);
                    assert(has(o, o[t] as int));
                }
                if has(o, k) && k <= start {
                    let t = choose|t: int| 0 <= t < o.len() && o[t] == k;
                    assert(survives_delete(o, t, k, start as int, len as int));
                }
                if k > start && has(o, k + len) {
                    let t = choose|t: int| 0 <= t < o.len() && o[t] == k + len;
                    assert(survives_delete(o, t, k, start as int, len as int));
                }
            }
        }
        self.starts = new_starts;
    }
}

} // verus!

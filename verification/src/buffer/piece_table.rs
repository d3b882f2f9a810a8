use std::sync::Arc;
use vstd::prelude::*;
use crate::buffer::line_index::{cut_out, spliced_in};
use crate::text::{is_utf8, string_from_utf8, utf8_ok};

verus! {

/// Where the bytes of a piece live: a range of the original bytes or of
/// the add buffer.
#[derive(Debug, Clone, Copy, PartialEq, Eq)]
pub enum PieceSource {
    Original { start: usize, len: usize },
    Add { start: usize, len: usize },
}

#[derive(Debug, Clone, Copy)]
struct Piece {
    source: PieceSource,
    /// Length in logical UTF-8 bytes exposed by this piece.
    len: usize,
}

/// Why a piece-table operation was refused.
#[derive(Debug, Clone, Copy, PartialEq, Eq)]
pub enum ReadError {
    OutOfBounds,
    InvalidUtf8,
}

impl ReadError {
    /// The message the error is shown with.
    pub fn message(&self) -> (r: &'static str)
        ensures
            r@ == match self {
                ReadError::OutOfBounds => "range out of bounds"@,
                ReadError::InvalidUtf8 => "invalid utf-8 in original buffer"@,
            },
    {
        match self {
            ReadError::OutOfBounds => "range out of bounds",
            ReadError::InvalidUtf8 => "invalid utf-8 in original buffer",
        }
    }
}

spec fn piece_bytes(p: Piece, orig: Seq<u8>, add: Seq<u8>) -> Seq<u8> {
    match p.source {
        PieceSource::Original { start, len } => orig.subrange(start as int, start + len),
        PieceSource::Add { start, len } => add.subrange(start as int, start + len),
    }
}

spec fn piece_fits(p: Piece, has_orig: bool, orig_len: int, add_len: int) -> bool {
    &&& piece_sane(p)
    &&& match p.source {
        PieceSource::Original { start, len } => has_orig && start + len <= orig_len,
        PieceSource::Add { start, len } => start + len <= add_len,
    }
}

spec fn piece_sane(p: Piece) -> bool {
    match p.source {
        PieceSource::Original { start, len } => len == p.len && start + len <= usize::MAX,
        PieceSource::Add { start, len } => len == p.len && start + len <= usize::MAX,
    }
}

spec fn piece_ok(p: Piece, has_orig: bool, orig_len: int, add_len: int) -> bool {
    &&& p.len > 0
    &&& piece_fits(p, has_orig, orig_len, add_len)
}

spec fn content(ps: Seq<Piece>, orig: Seq<u8>, add: Seq<u8>) -> Seq<u8>
    decreases ps.len(),
{
    if ps.len() == 0 {
        Seq::empty()
    } else {
        content(ps.drop_last(), orig, add) + piece_bytes(ps.last(), orig, add)
    }
}

/// The total length of the first `i` pieces of `ps`.
spec fn lens_before(ps: Seq<Piece>, i: int) -> int
    decreases i,
{
    if i <= 0 {
        0
    } else {
        lens_before(ps, i - 1) + ps[i - 1].len
    }
}

spec fn all_ok(ps: Seq<Piece>, has_orig: bool, orig_len: int, add_len: int) -> bool {
    forall|i: int| 0 <= i < ps.len() ==> #[trigger] piece_ok(ps[i], has_orig, orig_len, add_len)
}

proof fn lemma_piece_len(p: Piece, orig: Seq<u8>, add: Seq<u8>)
    requires
        piece_ok(p, true, orig.len() as int, add.len() as int) || piece_ok(
            p,
            false,
            orig.len() as int,
            add.len() as int,
        ),
    ensures
        piece_bytes(p, orig, add).len() == p.len,
{
}

proof fn lemma_content_concat(a: Seq<Piece>, b: Seq<Piece>, orig: Seq<u8>, add: Seq<u8>)
    ensures
        content(a + b, orig, add) == content(a, orig, add) + content(b, orig, add),
    decreases b.len(),
{
    if b.len() == 0 {
        assert(a + b =~= a);
        assert(content(a, orig, add) + content(b, orig, add) =~= content(a, orig, add));
    } else {
        lemma_content_concat(a, b.drop_last(), orig, add);
        assert((a + b).drop_last() =~= a + b.drop_last());
        assert((a + b).last() == b.last());
        assert(content(a, orig, add) + content(b.drop_last(), orig, add) + piece_bytes(b.last(), orig, add)
            =~= content(a, orig, add) + (content(b.drop_last(), orig, add) + piece_bytes(b.last(), orig, add)));
    }
}

proof fn lemma_content_single(p: Piece, orig: Seq<u8>, add: Seq<u8>)
    ensures
        content(seq![p], orig, add) == piece_bytes(p, orig, add),
{
    assert(seq![p].drop_last() =~= Seq::<Piece>::empty());
    assert(content(Seq::<Piece>::empty(), orig, add) == Seq::<u8>::empty());
    assert(content(seq![p].drop_last(), orig, add) == Seq::<u8>::empty());
    assert(Seq::<u8>::empty() + piece_bytes(p, orig, add) =~= piece_bytes(p, orig, add));
}

proof fn lemma_content3(a: Seq<Piece>, b: Seq<Piece>, c: Seq<Piece>, orig: Seq<u8>, add: Seq<u8>)
    ensures
        content(a + b + c, orig, add) == content(a, orig, add) + content(b, orig, add) + content(c, orig, add),
{
    lemma_content_concat(a + b, c, orig, add);
    lemma_content_concat(a, b, orig, add);
}

proof fn lemma_content_pair(p: Piece, q: Piece, orig: Seq<u8>, add: Seq<u8>)
    ensures
        content(seq![p, q], orig, add) == piece_bytes(p, orig, add) + piece_bytes(q, orig, add),
{
    assert(seq![p, q] =~= seq![p] + seq![q]);
    lemma_content_concat(seq![p], seq![q], orig, add);
    lemma_content_single(p, orig, add);
    lemma_content_single(q, orig, add);
}

proof fn lemma_content_triple(p: Piece, q: Piece, r: Piece, orig: Seq<u8>, add: Seq<u8>)
    ensures
        content(seq![p, q, r], orig, add) == piece_bytes(p, orig, add) + piece_bytes(q, orig, add) + piece_bytes(r, orig, add),
{
    assert(seq![p, q, r] =~= seq![p, q] + seq![r]);
    lemma_content_concat(seq![p, q], seq![r], orig, add);
    lemma_content_pair(p, q, orig, add);
    lemma_content_single(r, orig, add);
}

proof fn lemma_content_empty(orig: Seq<u8>, add: Seq<u8>)
    ensures
        content(Seq::<Piece>::empty(), orig, add) == Seq::<u8>::empty(),
{
}

proof fn lemma_content4(a: Seq<Piece>, b: Seq<Piece>, c: Seq<Piece>, d: Seq<Piece>, orig: Seq<u8>, add: Seq<u8>)
    ensures
        content(a + b + c + d, orig, add) == content(a, orig, add) + content(b, orig, add) + content(c, orig, add)
            + content(d, orig, add),
{
    lemma_content_concat(a + b + c, d, orig, add);
    lemma_content3(a, b, c, orig, add);
}

/// The content splits at piece boundary `i`.
proof fn lemma_content_split(ps: Seq<Piece>, i: int, orig: Seq<u8>, add: Seq<u8>)
    requires
        0 <= i <= ps.len(),
    ensures
        content(ps, orig, add) == content(ps.take(i), orig, add) + content(ps.skip(i), orig, add),
{
    assert(ps =~= ps.take(i) + ps.skip(i));
    lemma_content_concat(ps.take(i), ps.skip(i), orig, add);
}

/// Splitting piece `i` at `offset` into `left` and `right` around
/// `inserted` puts the inserted bytes in at that offset of the content.
proof fn lemma_split_insert(
    ps: Seq<Piece>,
    i: int,
    left: Piece,
    inserted: Piece,
    right: Piece,
    offset: int,
    o: Seq<u8>,
    a: Seq<u8>,
    h: bool,
)
    requires
        0 <= i < ps.len(),
        0 < offset < ps[i].len,
        piece_bytes(ps[i], o, a).len() == ps[i].len,
        all_ok(ps, h, o.len() as int, a.len() as int),
        piece_ok(left, h, o.len() as int, a.len() as int),
        piece_ok(inserted, h, o.len() as int, a.len() as int),
        piece_ok(right, h, o.len() as int, a.len() as int),
        piece_bytes(left, o, a) == piece_bytes(ps[i], o, a).subrange(0, offset),
        piece_bytes(right, o, a) == piece_bytes(ps[i], o, a).subrange(offset, ps[i].len as int),
    ensures
        all_ok(ps.take(i) + seq![left, inserted, right] + ps.skip(i + 1), h, o.len() as int, a.len() as int),
        content(ps.take(i) + seq![left, inserted, right] + ps.skip(i + 1), o, a) == spliced_in(
            content(ps, o, a),
            content(ps.take(i), o, a).len() + offset,
            piece_bytes(inserted, o, a),
        ),
{
    let n = ps.take(i) + seq![left, inserted, right] + ps.skip(i + 1);
    let bc = piece_bytes(ps[i], o, a);
    let pre = content(ps.take(i), o, a);
    let post = content(ps.skip(i + 1), o, a);
    let bx = piece_bytes(inserted, o, a);
    lemma_content_around(ps, i, o, a);
    lemma_content3(ps.take(i), seq![left, inserted, right], ps.skip(i + 1), o, a);
    lemma_content_triple(left, inserted, right, o, a);
    assert(spliced_in(content(ps, o, a), pre.len() + offset, bx) =~= pre + (bc.subrange(0, offset) + bx + bc.subrange(
        offset,
        ps[i].len as int,
    )) + post);
    assert forall|t: int| 0 <= t < n.len() implies #[trigger] piece_ok(n[t], h, o.len() as int, a.len() as int) by {
        if t < i {
            assert(n[t] == ps[t]);
        } else if t > i + 2 {
            assert(n[t] == ps[t - 2]);
        }
    }
}

/// Keeping the pieces before `sp`, the kept head of piece `sp`, the kept
/// tail of piece `ep` and the pieces after `ep` takes the bytes between
/// the two cut points out of the content.
proof fn lemma_delete_across(
    ps: Seq<Piece>,
    sp: int,
    ep: int,
    start_off: int,
    end_off: int,
    left_part: Seq<Piece>,
    right_part: Seq<Piece>,
    o: Seq<u8>,
    a: Seq<u8>,
    h: bool,
)
    requires
        0 <= sp < ep < ps.len(),
        0 <= start_off <= ps[sp].len,
        0 <= end_off <= ps[ep].len,
        piece_bytes(ps[sp], o, a).len() == ps[sp].len,
        piece_bytes(ps[ep], o, a).len() == ps[ep].len,
        all_ok(ps, h, o.len() as int, a.len() as int),
        all_ok(left_part, h, o.len() as int, a.len() as int),
        all_ok(right_part, h, o.len() as int, a.len() as int),
        content(left_part, o, a) == piece_bytes(ps[sp], o, a).subrange(0, start_off),
        content(right_part, o, a) == piece_bytes(ps[ep], o, a).subrange(end_off, ps[ep].len as int),
    ensures
        all_ok(ps.take(sp) + left_part + right_part + ps.skip(ep + 1), h, o.len() as int, a.len() as int),
        content(ps.take(sp) + left_part + right_part + ps.skip(ep + 1), o, a) == content(ps, o, a).take(
            content(ps.take(sp), o, a).len() + start_off,
        ) + content(ps, o, a).skip(content(ps.take(ep), o, a).len() + end_off),
{
    let pre = content(ps.take(sp), o, a);
    let post = content(ps.skip(ep + 1), o, a);
    let bs = piece_bytes(ps[sp], o, a);
    let be = piece_bytes(ps[ep], o, a);
    lemma_content_around(ps, sp, o, a);
    lemma_content_around(ps, ep, o, a);
    lemma_content4(ps.take(sp), left_part, right_part, ps.skip(ep + 1), o, a);
    let old_view = content(ps, o, a);
    assert(old_view.take(pre.len() + start_off) =~= pre + bs.subrange(0, start_off));
    assert(old_view.skip(content(ps.take(ep), o, a).len() + end_off) =~= be.subrange(end_off, be.len() as int) + post);
    let np = ps.take(sp) + left_part + right_part + ps.skip(ep + 1);
    assert forall|t: int| 0 <= t < np.len() implies #[trigger] piece_ok(np[t], h, o.len() as int, a.len() as int) by {
        if t < sp {
            assert(np[t] == ps[t]);
        } else if t < sp + left_part.len() {
            assert(np[t] == left_part[t - sp]);
        } else if t < sp + left_part.len() + right_part.len() {
            assert(np[t] == right_part[t - sp - left_part.len()]);
        } else {
            assert(np[t] == ps[ep + 1 + t - (sp + left_part.len() + right_part.len())]);
        }
    }
}

/// The content splits around piece `i`.
proof fn lemma_content_around(ps: Seq<Piece>, i: int, orig: Seq<u8>, add: Seq<u8>)
    requires
        0 <= i < ps.len(),
    ensures
        content(ps, orig, add) == content(ps.take(i), orig, add) + piece_bytes(ps[i], orig, add) + content(
            ps.skip(i + 1),
            orig,
            add,
        ),
        content(ps.take(i + 1), orig, add) == content(ps.take(i), orig, add) + piece_bytes(ps[i], orig, add),
{
    assert(ps =~= ps.take(i) + (seq![ps[i]] + ps.skip(i + 1)));
    lemma_content_concat(ps.take(i), seq![ps[i]] + ps.skip(i + 1), orig, add);
    lemma_content_concat(seq![ps[i]], ps.skip(i + 1), orig, add);
    lemma_content_single(ps[i], orig, add);
    assert(ps.take(i + 1).drop_last() =~= ps.take(i));
    assert(content(ps.take(i), orig, add) + (piece_bytes(ps[i], orig, add) + content(ps.skip(i + 1), orig, add))
        =~= content(ps.take(i), orig, add) + piece_bytes(ps[i], orig, add) + content(ps.skip(i + 1), orig, add));
}

proof fn lemma_content_len(ps: Seq<Piece>, has_orig: bool, orig: Seq<u8>, add: Seq<u8>)
    requires
        all_ok(ps, has_orig, orig.len() as int, add.len() as int),
    ensures
        ps.len() > 0 ==> content(ps, orig, add).len() >= ps.len(),
        forall|i: int| 0 <= i <= ps.len() ==> #[trigger] content(ps.take(i), orig, add).len() <= content(ps, orig, add).len(),
        forall|i: int, j: int| #![trigger content(ps.take(i), orig, add), content(ps.take(j), orig, add)] 0 <= i < j <= ps.len() ==> content(ps.take(i), orig, add).len() < content(ps.take(j), orig, add).len(),
    decreases ps.len(),
{
    if ps.len() > 0 {
        let r = ps.drop_last();
        assert(all_ok(r, has_orig, orig.len() as int, add.len() as int)) by {
            assert forall|i: int| 0 <= i < r.len() implies #[trigger] piece_ok(r[i], has_orig, orig.len() as int, add.len() as int) by {
                assert(r[i] == ps[i]);
            }
        }
        lemma_content_len(r, has_orig, orig, add);
        assert(piece_ok(ps[ps.len() - 1], has_orig, orig.len() as int, add.len() as int));
        lemma_piece_len(ps.last(), orig, add);
        assert forall|i: int| 0 <= i <= ps.len() implies #[trigger] content(ps.take(i), orig, add).len() <= content(ps, orig, add).len() by {
            if i < ps.len() {
                assert(r.take(i) =~= ps.take(i));
            } else {
                assert(ps.take(i) =~= ps);
            }
        }
        assert forall|i: int, j: int| #![trigger content(ps.take(i), orig, add), content(ps.take(j), orig, add)] 0 <= i < j <= ps.len() implies content(ps.take(i), orig, add).len() < content(ps.take(j), orig, add).len() by {
            assert(r.take(i) =~= ps.take(i));
            if j < ps.len() {
                assert(r.take(j) =~= ps.take(j));
            } else {
                assert(ps.take(j) =~= ps);
                if i < r.len() {
                    assert(content(r.take(i), orig, add).len() < content(r.take(r.len() as int), orig, add).len());
                }
                assert(r.take(r.len() as int) =~= r);
            }
        }
    }
}

proof fn lemma_content_add_grows(ps: Seq<Piece>, has_orig: bool, orig: Seq<u8>, add: Seq<u8>, extra: Seq<u8>)
    requires
        all_ok(ps, has_orig, orig.len() as int, add.len() as int),
    ensures
        content(ps, orig, add + extra) == content(ps, orig, add),
        all_ok(ps, has_orig, orig.len() as int, (add + extra).len() as int),
    decreases ps.len(),
{
    if ps.len() > 0 {
        let r = ps.drop_last();
        assert(all_ok(r, has_orig, orig.len() as int, add.len() as int)) by {
            assert forall|i: int| 0 <= i < r.len() implies #[trigger] piece_ok(r[i], has_orig, orig.len() as int, add.len() as int) by {
                assert(r[i] == ps[i]);
            }
        }
        lemma_content_add_grows(r, has_orig, orig, add, extra);
        assert(piece_ok(ps[ps.len() - 1], has_orig, orig.len() as int, add.len() as int));
        assert(piece_bytes(ps.last(), orig, add + extra) =~= piece_bytes(ps.last(), orig, add));
        assert forall|i: int| 0 <= i < ps.len() implies #[trigger] piece_ok(ps[i], has_orig, orig.len() as int, (add + extra).len() as int) by {
            assert(piece_ok(ps[i], has_orig, orig.len() as int, add.len() as int));
        }
    }
}

/// Piece table over the original bytes (if any) and an append-only add
/// buffer.
#[derive(Debug, Clone)]
pub struct PieceTable {
    original: Option<Arc<Vec<u8>>>,
    add_buffer: Vec<u8>,
    pieces: Vec<Piece>,
    length: usize,
}

impl View for PieceTable {
    type V = Seq<u8>;

    /// The document bytes the table exposes.
    closed spec fn view(&self) -> Seq<u8> {
        content(self.pieces@, self.orig_bytes(), self.add_buffer@)
    }
}

impl PieceTable {
    closed spec fn orig_bytes(&self) -> Seq<u8> {
        match self.original {
            Some(o) => o@,
            None => Seq::empty(),
        }
    }

    /// Every piece points inside its buffer and the length is the length of
    /// the content.
    pub closed spec fn wf(&self) -> bool {
        &&& all_ok(self.pieces@, self.original is Some, self.orig_bytes().len() as int, self.add_buffer@.len() as int)
        &&& self.length == self@.len()
    }

    /// A well-formed table's content fits in `usize` offsets.
    pub proof fn lemma_len_fits(&self)
        requires
            self.wf(),
        ensures
            self@.len() <= usize::MAX,
    {
    }

    /// `pos` is where a piece begins or where the last one ends: inserting
    /// there adds one piece, inserting anywhere else splits one.
    pub closed spec fn at_piece_boundary(&self, pos: int) -> bool {
        exists|i: int| 0 <= i <= self.pieces@.len() && lens_before(self.pieces@, i) == pos
    }

    /// A table of one piece has its boundaries at the start and the end of
    /// its content only.
    pub proof fn lemma_one_piece_boundaries(&self, pos: int)
        requires
            self.wf(),
            self.pieces_len() == 1,
        ensures
            self.at_piece_boundary(pos) <==> (pos == 0 || pos == self@.len()),
    {
        self.lemma_starts_are_lens(0);
        self.lemma_starts_are_lens(1);
        self.lemma_wf_facts();
        if pos == 0 {
            assert(lens_before(self.pieces@, 0) == pos);
        }
        if pos == self@.len() {
            assert(lens_before(self.pieces@, 1) == pos);
        }
    }

    proof fn lemma_starts_are_lens(&self, i: int)
        requires
            self.wf(),
            0 <= i <= self.pieces@.len(),
        ensures
            self.piece_start(i) == lens_before(self.pieces@, i),
        decreases i,
    {
        if i == 0 {
            self.lemma_wf_facts();
        } else {
            self.lemma_starts_are_lens(i - 1);
            self.lemma_piece_step(i - 1);
        }
    }

    /// How many pieces the table holds.
    pub closed spec fn pieces_len(&self) -> nat {
        self.pieces@.len()
    }

    /// The bytes piece `i` stands for.
    pub closed spec fn piece_text(&self, i: int) -> Seq<u8> {
        piece_bytes(self.pieces@[i], self.orig_bytes(), self.add_buffer@)
    }

    proof fn lemma_wf_facts(&self)
        requires
            self.wf(),
        ensures
            self.pieces@.len() > 0 ==> self@.len() >= self.pieces@.len(),
            self.pieces@.len() == 0 ==> self@.len() == 0,
            forall|i: int| 0 <= i <= self.pieces@.len() ==> #[trigger] self.piece_start(i) <= self@.len(),
            forall|i: int, j: int| #![trigger self.piece_start(i), self.piece_start(j)] 0 <= i < j <= self.pieces@.len() ==> self.piece_start(i) < self.piece_start(j),
            self.piece_start(self.pieces@.len() as int) == self@.len(),
            self.piece_start(0) == 0,
    {
        lemma_content_len(self.pieces@, self.original is Some, self.orig_bytes(), self.add_buffer@);
        assert(self.pieces@.take(self.pieces@.len() as int) =~= self.pieces@);
        assert(self.pieces@.take(0) =~= Seq::<Piece>::empty());
    }

    /// Byte offset at which piece `i` begins.
    closed spec fn piece_start(&self, i: int) -> int {
        content(self.pieces@.take(i), self.orig_bytes(), self.add_buffer@).len() as int
    }

    pub fn new_empty() -> (r: Self)
        ensures
            r.wf(),
            r@ == Seq::<u8>::empty(),
            r.pieces_len() == 0,
    {
        Self { original: None, add_buffer: Vec::new(), pieces: Vec::new(), length: 0 }
    }

    /// A table showing `original` from byte `start` on (`start` is clamped to
    /// the length of `original`).
    pub fn from_utf8_mmap_range(original: Arc<Vec<u8>>, start: usize) -> (r: Self)
        ensures
            r.wf(),
            r@ == original@.skip(if start <= original@.len() { start as int } else { original@.len() as int }),
            r.pieces_len() == if r@.len() == 0 { 0nat } else { 1nat },
    {
        let total = original.len();
        let start = if start < total { start } else { total };
        let len = total - start;
        let mut pieces: Vec<Piece> = Vec::new();
        if len != 0 {
            pieces.push(Piece { source: PieceSource::Original { start, len }, len });
        }
        let r = Self { original: Some(original), add_buffer: Vec::new(), pieces, length: len };
        proof {
            if len != 0 {
                lemma_content_single(r.pieces@[0], r.orig_bytes(), r.add_buffer@);
                assert(r.pieces@ =~= seq![r.pieces@[0]]);
            }
            assert(r@ =~= original@.skip(start as int));
        }
        r
    }

    /// A table showing all of `original`.
    pub fn from_utf8_mmap(original: Arc<Vec<u8>>) -> (r: Self)
        ensures
            r.wf(),
            r@ == original@,
    {
        let r = Self::from_utf8_mmap_range(original, 0);
        assert(original@.skip(0) =~= original@);
        r
    }

    /// A table showing `bytes`, held in the add buffer.
    pub fn from_utf8_bytes(bytes: Vec<u8>) -> (r: Self)
        ensures
            r.wf(),
            r@ == bytes@,
            r.pieces_len() == if bytes@.len() == 0 { 0nat } else { 1nat },
    {
        if bytes.len() == 0 {
            let r = Self::new_empty();
            assert(r@ =~= bytes@);
            return r;
        }
        let len = bytes.len();
        let mut table = Self::new_empty();
        table.add_buffer = bytes;
        table.pieces.push(Piece { source: PieceSource::Add { start: 0, len }, len });
        table.length = len;
        proof {
            lemma_content_single(table.pieces@[0], table.orig_bytes(), table.add_buffer@);
            assert(table.pieces@ =~= seq![table.pieces@[0]]);
            assert(table@ =~= bytes@);
        }
        table
    }

    pub fn len(&self) -> (r: usize)
        requires
            self.wf(),
        ensures
            r == self@.len(),
    {
        self.length
    }

    pub fn is_empty(&self) -> (r: bool)
        requires
            self.wf(),
        ensures
            r == (self@.len() == 0),
    {
        self.length == 0
    }

    pub fn piece_count(&self) -> (r: usize)
        ensures
            r == self.pieces_len(),
    {
        self.pieces.len()
    }

    proof fn lemma_piece_step(&self, i: int)
        requires
            self.wf(),
            0 <= i < self.pieces@.len(),
        ensures
            self.piece_start(i + 1) == self.piece_start(i) + self.pieces@[i].len,
            self.piece_start(i + 1) <= self@.len(),
            self@.subrange(self.piece_start(i), self.piece_start(i + 1)) == piece_bytes(
                self.pieces@[i],
                self.orig_bytes(),
                self.add_buffer@,
            ),
            self@ == content(self.pieces@.take(i), self.orig_bytes(), self.add_buffer@) + piece_bytes(
                self.pieces@[i],
                self.orig_bytes(),
                self.add_buffer@,
            ) + content(self.pieces@.skip(i + 1), self.orig_bytes(), self.add_buffer@),
    {
        self.lemma_wf_facts();
        lemma_content_around(self.pieces@, i, self.orig_bytes(), self.add_buffer@);
        assert(piece_ok(self.pieces@[i], self.original is Some, self.orig_bytes().len() as int, self.add_buffer@.len() as int));
        lemma_piece_len(self.pieces@[i], self.orig_bytes(), self.add_buffer@);
        let a = content(self.pieces@.take(i), self.orig_bytes(), self.add_buffer@);
        let b = piece_bytes(self.pieces@[i], self.orig_bytes(), self.add_buffer@);
        let c = content(self.pieces@.skip(i + 1), self.orig_bytes(), self.add_buffer@);
        assert((a + b + c).subrange(a.len() as int, (a.len() + b.len()) as int) =~= b);
        assert(self.piece_start(i + 1) <= self@.len());
    }

    /// Which piece holds offset `pos`, and where inside it.
    fn locate(&self, pos: usize) -> (r: Result<(usize, usize), ReadError>)
        requires
            self.wf(),
        ensures
            pos > self@.len() ==> r == Err::<(usize, usize), ReadError>(ReadError::OutOfBounds),
            pos <= self@.len() ==> r is Ok,
            r matches Ok((i, off)) ==> {
                &&& self.pieces@.len() == 0 ==> i == 0 && off == 0
                &&& self.pieces@.len() > 0 && pos < self@.len() ==> {
                    &&& i < self.pieces@.len()
                    &&& off < self.pieces@[i as int].len
                    &&& self.piece_start(i as int) + off == pos
                }
                &&& self.pieces@.len() > 0 && pos == self@.len() ==> {
                    &&& i == self.pieces@.len() - 1
                    &&& off == self.pieces@[i as int].len
                    &&& self.piece_start(i as int) + off == pos
                }
            },
    {
        if pos > self.length {
            return Err(ReadError::OutOfBounds);
        }
        if self.pieces.len() == 0 {
            return Ok((0, 0));
        }
        proof {
            self.lemma_wf_facts();
        }
        let n = self.pieces.len();
        let mut acc: usize = 0;
        let mut idx: usize = 0;
        while idx < n
            invariant
                self.wf(),
                n == self.pieces@.len(),
                n > 0,
                pos <= self@.len(),
                idx <= n,
                acc == self.piece_start(idx as int),
                acc <= pos,
            decreases n - idx,
        {
            let piece = self.pieces[idx];
            proof {
                self.lemma_piece_step(idx as int);
            }
            if pos < acc + piece.len {
                return Ok((idx, pos - acc));
            }
            acc = acc + piece.len;
            idx = idx + 1;
        }
        proof {
            self.lemma_wf_facts();
            self.lemma_piece_step(n - 1);
        }
        Ok((n - 1, self.pieces[n - 1].len))
    }

    /// Bytes `offset .. offset + len` of `piece`.
    fn read_piece_range(&self, piece: Piece, offset: usize, len: usize) -> (r: Result<Vec<u8>, ReadError>)
        requires
            piece_ok(piece, self.original is Some, self.orig_bytes().len() as int, self.add_buffer@.len() as int),
            offset + len <= piece.len,
        ensures
            r matches Ok(v) && v@ == piece_bytes(piece, self.orig_bytes(), self.add_buffer@).subrange(
                offset as int,
                offset + len,
            ),
    {
        match piece.source {
            PieceSource::Original { start, len: total } => {
                let mmap: &Vec<u8> = match &self.original {
                    Some(m) => &**m,
                    None => {
                        return Err(ReadError::OutOfBounds);
                    },
                };
                let mlen = mmap.len();
                let end = start + total;
                let from = start + offset;
                let to = from + len;
                if to > end || to > mlen {
                    return Err(ReadError::OutOfBounds);
                }
                let out = vstd::slice::slice_to_vec(vstd::slice::slice_subrange(mmap.as_slice(), from, to));
                assert(out@ =~= piece_bytes(piece, self.orig_bytes(), self.add_buffer@).subrange(offset as int, offset + len));
                Ok(out)
            },
            PieceSource::Add { start, len: total } => {
                let alen = self.add_buffer.len();
                let end = start + total;
                let from = start + offset;
                let to = from + len;
                if to > end || to > self.add_buffer.len() {
                    return Err(ReadError::OutOfBounds);
                }
                let out = vstd::slice::slice_to_vec(vstd::slice::slice_subrange(self.add_buffer.as_slice(), from, to));
                assert(out@ =~= piece_bytes(piece, self.orig_bytes(), self.add_buffer@).subrange(offset as int, offset + len));
                Ok(out)
            },
        }
    }

    /// All bytes of `piece`.
    fn read_piece(&self, piece: Piece) -> (r: Result<Vec<u8>, ReadError>)
        requires
            piece_ok(piece, self.original is Some, self.orig_bytes().len() as int, self.add_buffer@.len() as int),
        ensures
            r matches Ok(v) && v@ == piece_bytes(piece, self.orig_bytes(), self.add_buffer@),
    {
        let r = self.read_piece_range(piece, 0, piece.len);
        proof {
            lemma_piece_len(piece, self.orig_bytes(), self.add_buffer@);
            assert(piece_bytes(piece, self.orig_bytes(), self.add_buffer@).subrange(0, piece.len as int)
                =~= piece_bytes(piece, self.orig_bytes(), self.add_buffer@));
        }
        r
    }

    /// The document bytes `start .. end`.
    pub fn slice(&self, start: usize, end: usize) -> (r: Result<Vec<u8>, ReadError>)
        requires
            self.wf(),
        ensures
            (start > end || end > self@.len()) ==> r == Err::<Vec<u8>, ReadError>(ReadError::OutOfBounds),
            (start <= end && end <= self@.len()) ==> (r matches Ok(v) && v@ == self@.subrange(
                start as int,
                end as int,
            )),
    {
        if start > end || end > self.length {
            return Err(ReadError::OutOfBounds);
        }
        if start == end {
            let out: Vec<u8> = Vec::new();
            assert(out@ =~= self@.subrange(start as int, end as int));
            return Ok(out);
        }
        let mut out: Vec<u8> = Vec::with_capacity(end - start);
        let (mut piece_idx, mut offset) = self.locate(start)?;
        let mut remaining = end - start;
        proof {
            self.lemma_wf_facts();
        }
        while remaining > 0
            invariant
                self.wf(),
                start < end <= self@.len(),
                remaining <= end - start,
                piece_idx <= self.pieces@.len(),
                piece_idx < self.pieces@.len() ==> offset < self.pieces@[piece_idx as int].len,
                piece_idx == self.pieces@.len() ==> offset == 0,
                self.piece_start(piece_idx as int) + offset == end - remaining,
                out@ == self@.subrange(start as int, end - remaining),
            decreases remaining,
        {
            if piece_idx == self.pieces.len() {
                proof {
                    self.lemma_wf_facts();
                }
                assert(false);
            }
            let piece = self.pieces[piece_idx];
            proof {
                self.lemma_piece_step(piece_idx as int);
                assert(piece_ok(piece, self.original is Some, self.orig_bytes().len() as int, self.add_buffer@.len() as int));
            }
            let available = piece.len - offset;
            let take = if remaining < available { remaining } else { available };
            let chunk = self.read_piece_range(piece, offset, take)?;
            proof {
                let ps = self.piece_start(piece_idx as int);
                let b = piece_bytes(piece, self.orig_bytes(), self.add_buffer@);
                assert forall|t: int| 0 <= t < take implies chunk@[t] == self@[end - remaining + t] by {
                    assert(self@.subrange(ps, ps + piece.len)[offset + t] == b[offset + t]);
                }
                assert(out@ + chunk@ =~= self@.subrange(start as int, end - remaining + take));
            }
            out.extend_from_slice(chunk.as_slice());
            remaining = remaining - take;
            offset = offset + take;
            if offset == piece.len {
                piece_idx = piece_idx + 1;
                offset = 0;
                if piece_idx < self.pieces.len() {
                    assert(piece_ok(self.pieces@[piece_idx as int], self.original is Some, self.orig_bytes().len() as int, self.add_buffer@.len() as int));
                }
            }
        }
        Ok(out)
    }

    /// The document bytes `start .. end` as a string, when they are
    /// well-formed UTF-8.
    pub fn slice_str(&self, start: usize, end: usize) -> (r: Result<String, ReadError>)
        requires
            self.wf(),
        ensures
            (start > end || end > self@.len()) ==> r == Err::<String, ReadError>(ReadError::OutOfBounds),
            (start <= end && end <= self@.len()) ==> {
                &&& is_utf8(self@.subrange(start as int, end as int)) ==> (r matches Ok(s) && s@
                    == vstd::utf8::decode_utf8(self@.subrange(start as int, end as int)))
                &&& !is_utf8(self@.subrange(start as int, end as int)) ==> r == Err::<String, ReadError>(
                    ReadError::InvalidUtf8,
                )
            },
    {
        let bytes = self.slice(start, end)?;
        match string_from_utf8(bytes) {
            Some(s) => Ok(s),
            None => Err(ReadError::InvalidUtf8),
        }
    }

    /// The bytes of each piece, in order.
    pub fn iter_pieces(&self) -> (r: Vec<Result<Vec<u8>, ReadError>>)
        requires
            self.wf(),
        ensures
            r@.len() == self.pieces_len(),
            forall|i: int| 0 <= i < r@.len() ==> (#[trigger] r@[i] matches Ok(v) && v@ == self.piece_text(i)),
            self@ == Self::joined(r@),
    {
        let mut out: Vec<Result<Vec<u8>, ReadError>> = Vec::new();
        let n = self.pieces.len();
        let mut i: usize = 0;
        while i < n
            invariant
                self.wf(),
                n == self.pieces@.len(),
                i <= n,
                out@.len() == i,
                forall|t: int| 0 <= t < out@.len() ==> (#[trigger] out@[t] matches Ok(v) && v@ == self.piece_text(t)),
                Self::joined(out@) == content(self.pieces@.take(i as int), self.orig_bytes(), self.add_buffer@),
            decreases n - i,
        {
            let piece = self.pieces[i];
            assert(piece_ok(piece, self.original is Some, self.orig_bytes().len() as int, self.add_buffer@.len() as int));
            let bytes = self.read_piece(piece);
            proof {
                lemma_content_around(self.pieces@, i as int, self.orig_bytes(), self.add_buffer@);
            }
            let ghost before = out@;
            out.push(bytes);
            assert(out@.drop_last() =~= before);
            i = i + 1;
        }
        assert(self.pieces@.take(n as int) =~= self.pieces@);
        out
    }

    /// Puts `inserted` in at offset `offset` of piece `piece_idx`, splitting
    /// that piece when the offset falls inside it.
    #[verifier::rlimit(60)]
    #[verifier::spinoff_prover]
    fn insert_piece(&mut self, piece_idx: usize, offset: usize, inserted: Piece)
        requires
            all_ok(old(self).pieces@, old(self).original is Some, old(self).orig_bytes().len() as int, old(self).add_buffer@.len() as int),
            piece_ok(inserted, old(self).original is Some, old(self).orig_bytes().len() as int, old(self).add_buffer@.len() as int),
            old(self).pieces@.len() > 0 ==> piece_idx < old(self).pieces@.len() && offset <= old(self).pieces@[piece_idx as int].len,
        ensures
            final(self).original == old(self).original,
            final(self).add_buffer == old(self).add_buffer,
            final(self).length == old(self).length,
            final(self).pieces@.len() == old(self).pieces@.len() + if old(self).pieces@.len() > 0 && 0 < offset
                < old(self).pieces@[piece_idx as int].len { 2int } else { 1int },
            all_ok(final(self).pieces@, final(self).original is Some, final(self).orig_bytes().len() as int, final(self).add_buffer@.len() as int),
            content(final(self).pieces@, final(self).orig_bytes(), final(self).add_buffer@) == spliced_in(
                content(old(self).pieces@, old(self).orig_bytes(), old(self).add_buffer@),
                if old(self).pieces@.len() == 0 { 0 } else { old(self).piece_start(piece_idx as int) + offset },
                piece_bytes(inserted, old(self).orig_bytes(), old(self).add_buffer@),
            ),
    {
        let ghost ps = self.pieces@;
        let ghost o = self.orig_bytes();
        let ghost a = self.add_buffer@;
        let ghost h = self.original is Some;
        let ghost bx = piece_bytes(inserted, o, a);
        let ghost old_content = content(ps, o, a);
        if self.pieces.len() == 0 {
            self.pieces.push(inserted);
            proof {
                lemma_content_single(inserted, o, a);
                assert(self.pieces@ =~= seq![inserted]);
                assert(spliced_in(old_content, 0, bx) =~= bx);
            }
            return;
        }
        let current = self.pieces[piece_idx];
        proof {
            assert(piece_ok(current, h, o.len() as int, a.len() as int));
            lemma_piece_len(current, o, a);
            lemma_content_around(ps, piece_idx as int, o, a);
            lemma_content_single(inserted, o, a);
        }
        let ghost i = piece_idx as int;
        let ghost bc = piece_bytes(current, o, a);
        let ghost pre = content(ps.take(i), o, a);
        let ghost post = content(ps.skip(i + 1), o, a);
        if offset == 0 {
            self.pieces.insert(piece_idx, inserted);
            proof {
                assert(self.pieces@ =~= ps.take(i) + seq![inserted] + ps.skip(i));
                lemma_content3(ps.take(i), seq![inserted], ps.skip(i), o, a);
                lemma_content_split(ps, i, o, a);
                assert(spliced_in(old_content, pre.len() as int, bx) =~= pre + bx + content(ps.skip(i), o, a));
                assert forall|t: int| 0 <= t < self.pieces@.len() implies #[trigger] piece_ok(self.pieces@[t], h, o.len() as int, a.len() as int) by {
                    if t < i { assert(self.pieces@[t] == ps[t]); } else if t > i { assert(self.pieces@[t] == ps[t - 1]); }
                }
            }
            return;
        }
        if offset == current.len {
            self.pieces.insert(piece_idx + 1, inserted);
            proof {
                assert(self.pieces@ =~= ps.take(i + 1) + seq![inserted] + ps.skip(i + 1));
                lemma_content3(ps.take(i + 1), seq![inserted], ps.skip(i + 1), o, a);
                assert(spliced_in(old_content, pre.len() + offset, bx) =~= pre + bc + bx + post);
                assert forall|t: int| 0 <= t < self.pieces@.len() implies #[trigger] piece_ok(self.pieces@[t], h, o.len() as int, a.len() as int) by {
                    if t < i + 1 { assert(self.pieces@[t] == ps[t]); } else if t > i + 1 { assert(self.pieces@[t] == ps[t - 1]); }
                }
            }
            return;
        }
        let right = split_piece(current, offset);
        let left = match trim_piece_end(current, offset) {
            Ok(p) => p,
            Err(_) => {
                return;
            },
        };
        self.pieces.set(piece_idx, left);
        self.pieces.insert(piece_idx + 1, inserted);
        let grown = self.pieces.len();
        assert(piece_idx + 2 <= grown);
        self.pieces.insert(piece_idx + 2, right);
        proof {
            assert(self.pieces@ =~= ps.take(i) + seq![left, inserted, right] + ps.skip(i + 1));
            assert(piece_bytes(left, o, a) == bc.subrange(0, offset as int));
            assert(piece_bytes(right, o, a) == bc.subrange(offset as int, current.len as int));
            assert(piece_ok(left, h, o.len() as int, a.len() as int));
            assert(piece_ok(right, h, o.len() as int, a.len() as int));
            lemma_split_insert(ps, i, left, inserted, right, offset as int, o, a, h);
        }
    }

    /// Puts `text` in at offset `pos`.
    pub fn insert(&mut self, pos: usize, text: &[u8]) -> (r: Result<(), ReadError>)
        requires
            old(self).wf(),
            old(self)@.len() + text@.len() <= usize::MAX,
        ensures
            final(self).wf(),
            pos > old(self)@.len() ==> r == Err::<(), ReadError>(ReadError::OutOfBounds),
            pos <= old(self)@.len() && text@.len() == 0 ==> r is Ok,
            pos <= old(self)@.len() && text@.len() > 0 && !is_utf8(text@) ==> r == Err::<(), ReadError>(
                ReadError::InvalidUtf8,
            ),
            pos <= old(self)@.len() && text@.len() > 0 && is_utf8(text@) ==> r is Ok,
            r is Ok ==> final(self)@ == spliced_in(old(self)@, pos as int, text@),
            r is Ok && text@.len() > 0 ==> final(self).pieces_len() == old(self).pieces_len() + if old(
                self,
            ).pieces_len() > 0 && !old(self).at_piece_boundary(pos as int) { 2int } else { 1int },
            r is Err || text@.len() == 0 ==> *final(self) == *old(self),
    {
        if pos > self.length {
            return Err(ReadError::OutOfBounds);
        }
        if text.len() == 0 {
            assert(spliced_in(self@, pos as int, text@) =~= self@);
            return Ok(());
        }
        if !utf8_ok(text) {
            return Err(ReadError::InvalidUtf8);
        }
        let ghost o = self.orig_bytes();
        let ghost a0 = self.add_buffer@;
        let add_start = self.add_buffer.len();
        self.add_buffer.extend_from_slice(text);
        let insert_len = text.len();
        let total = self.add_buffer.len();
        proof {
            assert(self.add_buffer@ =~= a0 + text@);
            assert(add_start + insert_len == total);
            lemma_content_add_grows(self.pieces@, self.original is Some, o, a0, text@);
            assert(self.wf());
        }
        let (piece_idx, offset_in_piece) = self.locate(pos)?;
        let inserted = Piece { source: PieceSource::Add { start: add_start, len: insert_len }, len: insert_len };
        proof {
            assert(piece_bytes(inserted, o, self.add_buffer@) =~= text@);
            if self.pieces@.len() > 0 && pos < self@.len() {
                assert(offset_in_piece < self.pieces@[piece_idx as int].len);
            }
        }
        let ghost before = *self;
        proof {
            if before.pieces@.len() > 0 {
                let i = piece_idx as int;
                let off = offset_in_piece as int;
                before.lemma_wf_facts();
                before.lemma_starts_are_lens(i);
                before.lemma_piece_step(i);
                before.lemma_starts_are_lens(i + 1);
                if 0 < off < before.pieces@[i].len {
                    assert(!old(self).at_piece_boundary(pos as int)) by {
                        if old(self).at_piece_boundary(pos as int) {
                            let j = choose|j: int| 0 <= j <= old(self).pieces@.len() && lens_before(old(self).pieces@, j) == pos;
                            before.lemma_starts_are_lens(j);
                            if j <= i {
                                if j < i {
                                    assert(before.piece_start(j) < before.piece_start(i));
                                }
                            } else {
                                if j > i + 1 {
                                    assert(before.piece_start(i + 1) < before.piece_start(j));
                                }
                            }
                        }
                    }
                } else if off == 0 {
                    assert(lens_before(old(self).pieces@, i) == pos);
                } else {
                    assert(lens_before(old(self).pieces@, i + 1) == pos);
                }
            }
        }
        self.insert_piece(piece_idx, offset_in_piece, inserted);
        self.length = self.length + insert_len;
        proof {
            let p = if before.pieces@.len() == 0 { 0 } else { before.piece_start(piece_idx as int) + offset_in_piece };
            if before.pieces@.len() == 0 {
                before.lemma_wf_facts();
            }
            assert(p == pos);
            assert(self@ == spliced_in(old(self)@, pos as int, text@));
        }
        Ok(())
    }

    /// Removes bytes `start_off .. end_off` of piece `sp`.
    fn delete_within_piece(&mut self, start_piece: usize, start_off: usize, end_off: usize)
        requires
            all_ok(old(self).pieces@, old(self).original is Some, old(self).orig_bytes().len() as int, old(self).add_buffer@.len() as int),
            start_piece < old(self).pieces@.len(),
            start_off < end_off <= old(self).pieces@[start_piece as int].len,
        ensures
            final(self).original == old(self).original,
            final(self).add_buffer == old(self).add_buffer,
            final(self).length == old(self).length,
            all_ok(final(self).pieces@, final(self).original is Some, final(self).orig_bytes().len() as int, final(self).add_buffer@.len() as int),
            content(final(self).pieces@, final(self).orig_bytes(), final(self).add_buffer@) == cut_out(
                content(old(self).pieces@, old(self).orig_bytes(), old(self).add_buffer@),
                old(self).piece_start(start_piece as int) + start_off,
                end_off - start_off,
            ),
    {
        let ghost ps = self.pieces@;
        let ghost o = self.orig_bytes();
        let ghost a = self.add_buffer@;
        let ghost h = self.original is Some;
        let ghost sp = start_piece as int;
        let piece = self.pieces[start_piece];
        proof {
            assert(piece_ok(ps[sp], h, o.len() as int, a.len() as int));
            lemma_piece_len(ps[sp], o, a);
            lemma_content_around(ps, sp, o, a);
        }
        let ghost pre = content(ps.take(sp), o, a);
        let ghost post = content(ps.skip(sp + 1), o, a);
        let ghost bs = piece_bytes(ps[sp], o, a);
        proof {
            assert(cut_out(content(ps, o, a), pre.len() + start_off, end_off - start_off) =~= pre + (bs.subrange(0, start_off as int)
                + bs.subrange(end_off as int, piece.len as int)) + post);
        }
        if start_off == 0 && end_off == piece.len {
            self.pieces.remove(start_piece);
            proof {
                assert(self.pieces@ =~= ps.take(sp) + Seq::<Piece>::empty() + ps.skip(sp + 1));
                lemma_content3(ps.take(sp), Seq::<Piece>::empty(), ps.skip(sp + 1), o, a);
                lemma_content_empty(o, a);
                assert(bs.subrange(0, 0) + bs.subrange(piece.len as int, piece.len as int) =~= Seq::<u8>::empty());
                assert forall|t: int| 0 <= t < self.pieces@.len() implies #[trigger] piece_ok(self.pieces@[t], h, o.len() as int, a.len() as int) by {
                    if t < sp { assert(self.pieces@[t] == ps[t]); } else { assert(self.pieces@[t] == ps[t + 1]); }
                }
            }
        } else if start_off == 0 {
            let q = split_piece(piece, end_off);
            self.pieces.set(start_piece, q);
            proof {
                assert(self.pieces@ =~= ps.take(sp) + seq![q] + ps.skip(sp + 1));
                lemma_content3(ps.take(sp), seq![q], ps.skip(sp + 1), o, a);
                lemma_content_single(q, o, a);
                assert(bs.subrange(0, 0) + bs.subrange(end_off as int, piece.len as int) =~= bs.subrange(end_off as int, piece.len as int));
                assert(piece_ok(q, h, o.len() as int, a.len() as int));
                assert forall|t: int| 0 <= t < self.pieces@.len() implies #[trigger] piece_ok(self.pieces@[t], h, o.len() as int, a.len() as int) by {
                    if t != sp { assert(self.pieces@[t] == ps[t]); }
                }
            }
        } else if end_off == piece.len {
            let q = match trim_piece_end(piece, start_off) {
                Ok(q) => q,
                Err(_) => { return; },
            };
            self.pieces.set(start_piece, q);
            proof {
                assert(self.pieces@ =~= ps.take(sp) + seq![q] + ps.skip(sp + 1));
                lemma_content3(ps.take(sp), seq![q], ps.skip(sp + 1), o, a);
                lemma_content_single(q, o, a);
                assert(bs.subrange(0, start_off as int) + bs.subrange(piece.len as int, piece.len as int) =~= bs.subrange(0, start_off as int));
                assert(piece_ok(q, h, o.len() as int, a.len() as int));
                assert forall|t: int| 0 <= t < self.pieces@.len() implies #[trigger] piece_ok(self.pieces@[t], h, o.len() as int, a.len() as int) by {
                    if t != sp { assert(self.pieces@[t] == ps[t]); }
                }
            }
        } else {
            let right = split_piece(piece, end_off);
            let left = match trim_piece_end(piece, start_off) {
                Ok(q) => q,
                Err(_) => { return; },
            };
            self.pieces.set(start_piece, left);
            let count = self.pieces.len();
            assert(start_piece + 1 <= count);
            self.pieces.insert(start_piece + 1, right);
            proof {
                assert(self.pieces@ =~= ps.take(sp) + seq![left, right] + ps.skip(sp + 1));
                lemma_content3(ps.take(sp), seq![left, right], ps.skip(sp + 1), o, a);
                lemma_content_pair(left, right, o, a);
                assert(piece_ok(left, h, o.len() as int, a.len() as int));
                assert(piece_ok(right, h, o.len() as int, a.len() as int));
                assert forall|t: int| 0 <= t < self.pieces@.len() implies #[trigger] piece_ok(self.pieces@[t], h, o.len() as int, a.len() as int) by {
                    if t < sp { assert(self.pieces@[t] == ps[t]); } else if t > sp + 1 { assert(self.pieces@[t] == ps[t - 1]); }
                }
            }
        }
    }

    /// Removes the bytes from offset `start_off` of piece `start_piece` to
    /// offset `end_off` of the later piece `end_piece`.
    #[verifier::spinoff_prover]
    fn delete_across_pieces(&mut self, start_piece: usize, start_off: usize, end_piece: usize, end_off: usize)
        requires
            all_ok(old(self).pieces@, old(self).original is Some, old(self).orig_bytes().len() as int, old(self).add_buffer@.len() as int),
            start_piece < end_piece < old(self).pieces@.len(),
            start_off <= old(self).pieces@[start_piece as int].len,
            end_off <= old(self).pieces@[end_piece as int].len,
        ensures
            final(self).original == old(self).original,
            final(self).add_buffer == old(self).add_buffer,
            final(self).length == old(self).length,
            all_ok(final(self).pieces@, final(self).original is Some, final(self).orig_bytes().len() as int, final(self).add_buffer@.len() as int),
            content(final(self).pieces@, final(self).orig_bytes(), final(self).add_buffer@) == content(
                old(self).pieces@,
                old(self).orig_bytes(),
                old(self).add_buffer@,
            ).take(old(self).piece_start(start_piece as int) + start_off) + content(
                old(self).pieces@,
                old(self).orig_bytes(),
                old(self).add_buffer@,
            ).skip(old(self).piece_start(end_piece as int) + end_off),
    {
        let ghost ps = self.pieces@;
        let ghost o = self.orig_bytes();
        let ghost a = self.add_buffer@;
        let ghost h = self.original is Some;
        let ghost sp = start_piece as int;
        let ghost ep = end_piece as int;
        proof {
            assert(piece_ok(ps[sp], h, o.len() as int, a.len() as int));
            assert(piece_ok(ps[ep], h, o.len() as int, a.len() as int));
            lemma_piece_len(ps[sp], o, a);
            lemma_piece_len(ps[ep], o, a);
            lemma_content_around(ps, sp, o, a);
            lemma_content_around(ps, ep, o, a);
        }
        let ghost pre = content(ps.take(sp), o, a);
        let ghost post = content(ps.skip(ep + 1), o, a);
        let ghost bs = piece_bytes(ps[sp], o, a);
        let ghost be = piece_bytes(ps[ep], o, a);
        let n = self.pieces.len();
        let mut new_pieces: Vec<Piece> = Vec::with_capacity(n);
        let mut idx: usize = 0;
        while idx < start_piece
            invariant
                self.pieces@ == ps,
                sp < ep < ps.len(),
                start_piece == sp,
                idx <= start_piece,
                new_pieces@ == ps.take(idx as int),
            decreases start_piece - idx,
        {
            new_pieces.push(self.pieces[idx]);
            idx = idx + 1;
            assert(new_pieces@ =~= ps.take(idx as int));
        }
        let ghost mut left_part: Seq<Piece> = Seq::empty();
        let first = self.pieces[start_piece];
        if start_off > 0 {
            let trimmed = match trim_piece_end(first, start_off) {
                Ok(q) => q,
                Err(_) => { return; },
            };
            if trimmed.len > 0 {
                new_pieces.push(trimmed);
                proof {
                    left_part = seq![trimmed];
                }
            }
        }
        let ghost mut right_part: Seq<Piece> = Seq::empty();
        let last = self.pieces[end_piece];
        if end_off < last.len {
            let trimmed = match trim_piece_start(last, end_off) {
                Ok(q) => q,
                Err(_) => { return; },
            };
            if trimmed.len > 0 {
                new_pieces.push(trimmed);
                proof {
                    right_part = seq![trimmed];
                }
            }
        }
        proof {
            assert(new_pieces@ =~= ps.take(sp) + left_part + right_part);
            lemma_content_empty(o, a);
            if left_part.len() > 0 {
                lemma_content_single(left_part[0], o, a);
            }
            if right_part.len() > 0 {
                lemma_content_single(right_part[0], o, a);
            }
            assert(content(left_part, o, a) =~= bs.subrange(0, start_off as int));
            assert(content(right_part, o, a) =~= be.subrange(end_off as int, be.len() as int));
        }
        let ghost mid = new_pieces@;
        idx = end_piece + 1;
        while idx < n
            invariant
                self.pieces@ == ps,
                n == ps.len(),
                0 <= ep < ps.len(),
                ep + 1 <= idx <= n,
                new_pieces@ == mid + ps.subrange(ep + 1, idx as int),
            decreases n - idx,
        {
            let p = self.pieces[idx];
            let ghost before = new_pieces@;
            new_pieces.push(p);
            proof {
                assert(ps.subrange(ep + 1, idx + 1) =~= ps.subrange(ep + 1, idx as int).push(ps[idx as int]));
                assert(before.push(ps[idx as int]) =~= mid + ps.subrange(ep + 1, idx + 1));
            }
            idx = idx + 1;
        }
        proof {
            assert(ps.subrange(ep + 1, n as int) =~= ps.skip(ep + 1));
            assert(new_pieces@ =~= ps.take(sp) + left_part + right_part + ps.skip(ep + 1));
            lemma_delete_across(ps, sp, ep, start_off as int, end_off as int, left_part, right_part, o, a, h);
        }
        self.pieces = new_pieces;
    }

    /// Takes out the bytes `start .. end` and hands them back.
    pub fn delete(&mut self, start: usize, end: usize) -> (r: Result<Vec<u8>, ReadError>)
        requires
            old(self).wf(),
        ensures
            final(self).wf(),
            (start > end || end > old(self)@.len()) ==> r == Err::<Vec<u8>, ReadError>(ReadError::OutOfBounds),
            (start <= end && end <= old(self)@.len()) ==> (r matches Ok(v) && v@ == old(self)@.subrange(
                start as int,
                end as int,
            )),
            r is Ok ==> final(self)@ == cut_out(old(self)@, start as int, end - start),
            r is Err ==> *final(self) == *old(self),
    {
        if start > end || end > self.length {
            return Err(ReadError::OutOfBounds);
        }
        if start == end {
            let out: Vec<u8> = Vec::new();
            assert(out@ =~= self@.subrange(start as int, end as int));
            assert(cut_out(self@, start as int, 0) =~= self@);
            return Ok(out);
        }
        let deleted = self.slice(start, end)?;
        let (start_piece, start_off) = self.locate(start)?;
        let (end_piece, end_off) = self.locate(end)?;
        let ghost ps = self.pieces@;
        let ghost o = self.orig_bytes();
        let ghost a = self.add_buffer@;
        let ghost h = self.original is Some;
        let ghost old_view = self@;
        let ghost sp = start_piece as int;
        let ghost ep = end_piece as int;
        proof {
            self.lemma_wf_facts();
            self.lemma_piece_step(sp);
            self.lemma_piece_step(ep);
            if ep < sp {
                assert(self.piece_start(ep + 1) <= self.piece_start(sp)) by {
                    if ep + 1 < sp {
                        assert(self.piece_start(ep + 1) < self.piece_start(sp));
                    }
                }
                assert(false);
            }
            assert(piece_ok(ps[sp], h, o.len() as int, a.len() as int));
            assert(piece_ok(ps[ep], h, o.len() as int, a.len() as int));
        }
        if start_piece == end_piece {
            self.delete_within_piece(start_piece, start_off, end_off);
        } else {
            self.delete_across_pieces(start_piece, start_off, end_piece, end_off);
        }
        self.length = self.length - (end - start);
        proof {
            if start_piece != end_piece {
                assert(cut_out(old_view, start as int, end - start) =~= old_view.take(start as int) + old_view.skip(end as int));
            }
            assert(self@ == cut_out(old_view, start as int, end - start));
        }
        Ok(deleted)
    }

    /// The concatenation of a list of piece contents.
    pub open spec fn joined(items: Seq<Result<Vec<u8>, ReadError>>) -> Seq<u8>
        decreases items.len(),
    {
        if items.len() == 0 {
            Seq::empty()
        } else {
            Self::joined(items.drop_last()) + match items.last() {
                Ok(v) => v@,
                Err(_) => Seq::empty(),
            }
        }
    }
}

fn split_piece(piece: Piece, offset: usize) -> (r: Piece)
    requires
        offset <= piece.len,
        piece_sane(piece),
    ensures
        r.len == piece.len - offset,
        piece_sane(r),
        forall|h: bool, ol: int, al: int| piece_fits(piece, h, ol, al) ==> piece_fits(r, h, ol, al),
        forall|o: Seq<u8>, a: Seq<u8>| piece_fits(piece, true, o.len() as int, a.len() as int) ==> #[trigger] piece_bytes(r, o, a) == piece_bytes(piece, o, a).subrange(offset as int, piece.len as int),
        r.source is Original <==> piece.source is Original,
{
    match piece.source {
        PieceSource::Original { start, len } => {
            let r = Piece { source: PieceSource::Original { start: start + offset, len: len - offset }, len: piece.len - offset };
            assert forall|o: Seq<u8>, a: Seq<u8>| piece_fits(piece, true, o.len() as int, a.len() as int) implies #[trigger] piece_bytes(r, o, a) == piece_bytes(piece, o, a).subrange(offset as int, piece.len as int) by {
                assert(piece_bytes(r, o, a) =~= piece_bytes(piece, o, a).subrange(offset as int, piece.len as int));
            }
            r
        },
        PieceSource::Add { start, len } => {
            let r = Piece { source: PieceSource::Add { start: start + offset, len: len - offset }, len: piece.len - offset };
            assert forall|o: Seq<u8>, a: Seq<u8>| piece_fits(piece, true, o.len() as int, a.len() as int) implies #[trigger] piece_bytes(r, o, a) == piece_bytes(piece, o, a).subrange(offset as int, piece.len as int) by {
                assert(piece_bytes(r, o, a) =~= piece_bytes(piece, o, a).subrange(offset as int, piece.len as int));
            }
            r
        },
    }
}

fn trim_piece_end(piece: Piece, keep: usize) -> (r: Result<Piece, ReadError>)
    requires
        piece_sane(piece),
    ensures
        keep > piece.len ==> r == Err::<Piece, ReadError>(ReadError::OutOfBounds),
        keep <= piece.len ==> (r matches Ok(q) && {
            &&& q.len == keep
            &&& piece_sane(q)
            &&& forall|h: bool, ol: int, al: int| piece_fits(piece, h, ol, al) ==> piece_fits(q, h, ol, al)
            &&& forall|o: Seq<u8>, a: Seq<u8>| piece_fits(piece, true, o.len() as int, a.len() as int) ==> #[trigger] piece_bytes(q, o, a) == piece_bytes(piece, o, a).subrange(0, keep as int)
        }),
{
    if keep > piece.len {
        return Err(ReadError::OutOfBounds);
    }
    let q = match piece.source {
        PieceSource::Original { start, .. } => Piece { source: PieceSource::Original { start, len: keep }, len: keep },
        PieceSource::Add { start, .. } => Piece { source: PieceSource::Add { start, len: keep }, len: keep },
    };
    assert forall|o: Seq<u8>, a: Seq<u8>| piece_fits(piece, true, o.len() as int, a.len() as int) implies #[trigger] piece_bytes(q, o, a) == piece_bytes(piece, o, a).subrange(0, keep as int) by {
        assert(piece_bytes(q, o, a) =~= piece_bytes(piece, o, a).subrange(0, keep as int));
    }
    Ok(q)
}

fn trim_piece_start(piece: Piece, skip: usize) -> (r: Result<Piece, ReadError>)
    requires
        piece_sane(piece),
    ensures
        skip > piece.len ==> r == Err::<Piece, ReadError>(ReadError::OutOfBounds),
        skip <= piece.len ==> (r matches Ok(q) && {
            &&& q.len == piece.len - skip
            &&& piece_sane(q)
            &&& forall|h: bool, ol: int, al: int| piece_fits(piece, h, ol, al) ==> piece_fits(q, h, ol, al)
            &&& forall|o: Seq<u8>, a: Seq<u8>| piece_fits(piece, true, o.len() as int, a.len() as int) ==> #[trigger] piece_bytes(q, o, a) == piece_bytes(piece, o, a).subrange(skip as int, piece.len as int)
        }),
{
    if skip > piece.len {
        return Err(ReadError::OutOfBounds);
    }
    Ok(split_piece(piece, skip))
}

} // verus!

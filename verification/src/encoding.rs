use vstd::prelude::*;
use vstd::string::*;
use crate::text::{is_utf8, str_from_utf8, utf16_of, utf8_ok, wide};

verus! {

/// The text encodings a file can be read and written in.
#[derive(Debug, Clone, Copy, PartialEq, Eq)]
pub enum FileEncoding {
    Utf8,
    Utf8Bom,
    Utf16Le,
    Utf16Be,
    Windows1251,
}

/// `bytes` begins with `prefix`.
pub open spec fn begins_with(bytes: Seq<u8>, prefix: Seq<u8>) -> bool {
    prefix.len() <= bytes.len() && bytes.take(prefix.len() as int) == prefix
}

/// How many bytes of `s` are zero.
pub open spec fn zeros_in(s: Seq<u8>) -> nat
    decreases s.len(),
{
    if s.len() == 0 {
        0
    } else {
        zeros_in(s.drop_last()) + if s.last() == 0u8 { 1nat } else { 0nat }
    }
}

/// How many bytes of `s` lie in `0xC0 ..= 0xFF`, the Cyrillic letters of
/// Windows-1251.
pub open spec fn high_letters_in(s: Seq<u8>) -> nat
    decreases s.len(),
{
    if s.len() == 0 {
        0
    } else {
        high_letters_in(s.drop_last()) + if s.last() >= 0xC0u8 { 1nat } else { 0nat }
    }
}

pub open spec fn min_int(a: int, b: int) -> int {
    if a <= b { a } else { b }
}

/// More than a tenth of the first 4096 bytes (of at least four) are zero.
pub open spec fn looks_utf16(bytes: Seq<u8>) -> bool {
    let sample = min_int(bytes.len() as int, 4096);
    bytes.len() >= 4 && zeros_in(bytes.take(sample)) * 10 > sample
}

/// Not UTF-8, and more than a twentieth of the first 8192 bytes are
/// Cyrillic letters of Windows-1251.
pub open spec fn looks_cp1251(bytes: Seq<u8>) -> bool {
    let sample = min_int(bytes.len() as int, 8192);
    !is_utf8(bytes) && high_letters_in(bytes.take(sample)) * 20 > sample
}

pub open spec fn utf8_bom() -> Seq<u8> {
    seq![0xEFu8, 0xBBu8, 0xBFu8]
}

pub open spec fn utf16le_bom() -> Seq<u8> {
    seq![0xFFu8, 0xFEu8]
}

pub open spec fn utf16be_bom() -> Seq<u8> {
    seq![0xFEu8, 0xFFu8]
}

/// The encoding `detect_encoding` guesses for `bytes`: a byte order mark
/// decides; else many zero bytes mean UTF-16 (big-endian when the text
/// starts with a zero byte followed by a non-zero one); else text that is not
/// UTF-8 with many Cyrillic letters means Windows-1251; else UTF-8.
pub open spec fn detected_encoding(bytes: Seq<u8>) -> FileEncoding {
    if begins_with(bytes, utf8_bom()) {
        FileEncoding::Utf8Bom
    } else if begins_with(bytes, utf16le_bom()) {
        FileEncoding::Utf16Le
    } else if begins_with(bytes, utf16be_bom()) {
        FileEncoding::Utf16Be
    } else if looks_utf16(bytes) {
        if bytes.len() >= 2 && bytes[0] == 0u8 && bytes[1] != 0u8 {
            FileEncoding::Utf16Be
        } else {
            FileEncoding::Utf16Le
        }
    } else if looks_cp1251(bytes) {
        FileEncoding::Windows1251
    } else {
        FileEncoding::Utf8
    }
}

/// `bytes` without the byte order mark of `encoding`, when it starts with
/// that mark.
pub open spec fn without_bom(bytes: Seq<u8>, encoding: FileEncoding) -> Seq<u8> {
    match encoding {
        FileEncoding::Utf8Bom => if begins_with(bytes, utf8_bom()) { bytes.skip(3) } else { bytes },
        FileEncoding::Utf16Le => if begins_with(bytes, utf16le_bom()) { bytes.skip(2) } else { bytes },
        FileEncoding::Utf16Be => if begins_with(bytes, utf16be_bom()) { bytes.skip(2) } else { bytes },
        _ => bytes,
    }
}

impl FileEncoding {
    /// The name shown for the encoding.
    pub open spec fn label_spec(self) -> Seq<char> {
        match self {
            FileEncoding::Utf8 => "UTF-8"@,
            FileEncoding::Utf8Bom => "UTF-8 BOM"@,
            FileEncoding::Utf16Le => "UTF-16 LE"@,
            FileEncoding::Utf16Be => "UTF-16 BE"@,
            FileEncoding::Windows1251 => "Windows-1251"@,
        }
    }

    /// The name shown for the encoding.
    pub fn label(self) -> (r: &'static str)
        ensures
            r@ == self.label_spec(),
    {
        match self {
            FileEncoding::Utf8 => "UTF-8",
            FileEncoding::Utf8Bom => "UTF-8 BOM",
            FileEncoding::Utf16Le => "UTF-16 LE",
            FileEncoding::Utf16Be => "UTF-16 BE",
            FileEncoding::Windows1251 => "Windows-1251",
        }
    }

    /// Whether saving writes the UTF-8 byte order mark.
    pub fn write_bom(self) -> (r: bool)
        ensures
            r == (self == FileEncoding::Utf8Bom),
    {
        match self {
            FileEncoding::Utf8Bom => true,
            _ => false,
        }
    }
}

fn has_prefix(bytes: &[u8], prefix: &[u8]) -> (r: bool)
    ensures
        r == begins_with(bytes@, prefix@),
{
    if prefix.len() > bytes.len() {
        return false;
    }
    let mut i: usize = 0;
    while i < prefix.len()
        invariant
            i <= prefix@.len() <= bytes@.len(),
            forall|t: int| 0 <= t < i ==> bytes@[t] == prefix@[t],
        decreases prefix@.len() - i,
    {
        if bytes[i] != prefix[i] {
            assert(bytes@.take(prefix@.len() as int)[i as int] != prefix@[i as int]);
            return false;
        }
        i = i + 1;
    }
    assert(bytes@.take(prefix@.len() as int) =~= prefix@);
    true
}

fn looks_like_utf16(bytes: &[u8]) -> (r: bool)
    ensures
        r == looks_utf16(bytes@),
{
    if bytes.len() < 4 {
        return false;
    }
    let sample = if bytes.len() < 4096 { bytes.len() } else { 4096 };
    let mut zeros: usize = 0;
    let mut i: usize = 0;
    while i < sample
        invariant
            sample <= bytes@.len(),
            sample <= 4096,
            i <= sample,
            zeros == zeros_in(bytes@.take(i as int)),
            zeros <= i,
        decreases sample - i,
    {
        assert(bytes@.take(i + 1).drop_last() =~= bytes@.take(i as int));
        if bytes[i] == 0 {
            zeros = zeros + 1;
        }
        i = i + 1;
    }
    zeros * 10 > sample
}

fn looks_like_windows1251(bytes: &[u8]) -> (r: bool)
    ensures
        r == looks_cp1251(bytes@),
{
    if utf8_ok(bytes) {
        return false;
    }
    let sample = if bytes.len() < 8192 { bytes.len() } else { 8192 };
    let mut cyrillic: usize = 0;
    let mut i: usize = 0;
    while i < sample
        invariant
            sample <= bytes@.len(),
            sample <= 8192,
            i <= sample,
            cyrillic == high_letters_in(bytes@.take(i as int)),
            cyrillic <= i,
        decreases sample - i,
    {
        assert(bytes@.take(i + 1).drop_last() =~= bytes@.take(i as int));
        if bytes[i] >= 0xC0 {
            cyrillic = cyrillic + 1;
        }
        i = i + 1;
    }
    cyrillic * 20 > sample
}

/// Guesses the encoding of file bytes.
pub fn detect_encoding(bytes: &[u8]) -> (r: FileEncoding)
    ensures
        r == detected_encoding(bytes@),
{
    let bom8: [u8; 3] = [0xEF, 0xBB, 0xBF];
    let le: [u8; 2] = [0xFF, 0xFE];
    let be: [u8; 2] = [0xFE, 0xFF];
    assert(bom8@ =~= utf8_bom());
    assert(le@ =~= utf16le_bom());
    assert(be@ =~= utf16be_bom());
    if has_prefix(bytes, bom8.as_slice()) {
        return FileEncoding::Utf8Bom;
    }
    if has_prefix(bytes, le.as_slice()) {
        return FileEncoding::Utf16Le;
    }
    if has_prefix(bytes, be.as_slice()) {
        return FileEncoding::Utf16Be;
    }
    if looks_like_utf16(bytes) {
        if bytes.len() >= 2 && bytes[0] == 0 && bytes[1] != 0 {
            return FileEncoding::Utf16Be;
        }
        return FileEncoding::Utf16Le;
    }
    if looks_like_windows1251(bytes) {
        return FileEncoding::Windows1251;
    }
    FileEncoding::Utf8
}

/// The bytes after the byte order mark of `encoding`, if they start with it.
pub fn strip_bom(bytes: &[u8], encoding: FileEncoding) -> (r: &[u8])
    ensures
        r@ == without_bom(bytes@, encoding),
{
    let bom8: [u8; 3] = [0xEF, 0xBB, 0xBF];
    let le: [u8; 2] = [0xFF, 0xFE];
    let be: [u8; 2] = [0xFE, 0xFF];
    assert(bom8@ =~= utf8_bom());
    assert(le@ =~= utf16le_bom());
    assert(be@ =~= utf16be_bom());
    match encoding {
        FileEncoding::Utf8Bom => {
            if has_prefix(bytes, bom8.as_slice()) {
                let r = vstd::slice::slice_subrange(bytes, 3, bytes.len());
                assert(r@ =~= bytes@.skip(3));
                return r;
            }
            bytes
        },
        FileEncoding::Utf16Le => {
            if has_prefix(bytes, le.as_slice()) {
                let r = vstd::slice::slice_subrange(bytes, 2, bytes.len());
                assert(r@ =~= bytes@.skip(2));
                return r;
            }
            bytes
        },
        FileEncoding::Utf16Be => {
            if has_prefix(bytes, be.as_slice()) {
                let r = vstd::slice::slice_subrange(bytes, 2, bytes.len());
                assert(r@ =~= bytes@.skip(2));
                return r;
            }
            bytes
        },
        _ => bytes,
    }
}

/// What `encoding_rs::UTF_16LE.decode` gives for `bytes`: the UTF-8 bytes
/// of the decoded text, and whether ill-formed input was replaced.
pub uninterp spec fn utf16le_decoded(bytes: Seq<u8>) -> (Seq<u8>, bool);

/// What `encoding_rs::UTF_16BE.decode` gives for `bytes`.
pub uninterp spec fn utf16be_decoded(bytes: Seq<u8>) -> (Seq<u8>, bool);

/// What `encoding_rs::WINDOWS_1251.decode` gives for `bytes`.
pub uninterp spec fn windows1251_decoded(bytes: Seq<u8>) -> (Seq<u8>, bool);

/// What `encoding_rs::WINDOWS_1251.encode` gives for `text`.
pub uninterp spec fn windows1251_encoded(text: Seq<char>) -> Seq<u8>;

/// The bytes of the UTF-16 code units `units`, each high byte first when
/// `big_endian`, else low byte first.
pub open spec fn unit_bytes(units: Seq<u16>, big_endian: bool) -> Seq<u8>
    decreases units.len(),
{
    if units.len() == 0 {
        Seq::empty()
    } else {
        let w = units.last();
        let lo = (w % 256) as u8;
        let hi = (w / 256) as u8;
        unit_bytes(units.drop_last(), big_endian) + if big_endian { seq![hi, lo] } else { seq![lo, hi] }
    }
}

/// `text` in UTF-16, little-endian or big-endian, without a byte order
/// mark.
pub open spec fn utf16_bytes(text: Seq<char>, big_endian: bool) -> Seq<u8> {
    unit_bytes(utf16_of(text), big_endian)
}

/// `bytes` begins with one of the byte order marks that encoding_rs sniffs
/// (UTF-8, UTF-16 LE, UTF-16 BE).
pub open spec fn begins_with_any_bom(bytes: Seq<u8>) -> bool {
    begins_with(bytes, utf8_bom()) || begins_with(bytes, utf16le_bom()) || begins_with(bytes, utf16be_bom())
}

/// Input sizes for which encoding_rs's buffer-size arithmetic cannot
/// overflow (its documented panic).
pub open spec fn codec_size_ok(len: int) -> bool {
    len <= usize::MAX / 8
}

/// `encoding_rs::UTF_16LE.decode(bytes)` (which sniffs a byte order mark):
/// the decoded text as UTF-8 bytes, and the malformed-input flag. The text
/// is a Rust string, so its bytes are UTF-8. Bytes that begin with no byte
/// order mark are decoded as UTF-16 LE; well-formed code units of a text
/// give that text back, with no error.
#[verifier::external_body]
fn decode_utf16le(bytes: &[u8]) -> (r: (Vec<u8>, bool))
    requires
        codec_size_ok(bytes@.len() as int),
    ensures
        (r.0@, r.1) == utf16le_decoded(bytes@),
        is_utf8(r.0@),
        forall|s: Seq<char>|
            #[trigger] utf16_bytes(s, false) == bytes@ && !begins_with_any_bom(bytes@) ==> r.0@
                == vstd::utf8::encode_utf8(s) && !r.1,
{
    let (text, _, had_errors) = encoding_rs::UTF_16LE.decode(bytes);
    (text.into_owned().into_bytes(), had_errors)
}

/// `encoding_rs::UTF_16BE.decode(bytes)`, as for UTF-16 LE.
#[verifier::external_body]
fn decode_utf16be(bytes: &[u8]) -> (r: (Vec<u8>, bool))
    requires
        codec_size_ok(bytes@.len() as int),
    ensures
        (r.0@, r.1) == utf16be_decoded(bytes@),
        is_utf8(r.0@),
        forall|s: Seq<char>|
            #[trigger] utf16_bytes(s, true) == bytes@ && !begins_with_any_bom(bytes@) ==> r.0@
                == vstd::utf8::encode_utf8(s) && !r.1,
{
    let (text, _, had_errors) = encoding_rs::UTF_16BE.decode(bytes);
    (text.into_owned().into_bytes(), had_errors)
}

/// `encoding_rs::WINDOWS_1251.decode(bytes)`, as for UTF-16 LE.
#[verifier::external_body]
fn decode_windows1251(bytes: &[u8]) -> (r: (Vec<u8>, bool))
    requires
        codec_size_ok(bytes@.len() as int),
    ensures
        (r.0@, r.1) == windows1251_decoded(bytes@),
        is_utf8(r.0@),
{
    let (text, _, had_errors) = encoding_rs::WINDOWS_1251.decode(bytes);
    (text.into_owned().into_bytes(), had_errors)
}

/// `encoding_rs::WINDOWS_1251.encode(text)`: the encoded bytes.
#[verifier::external_body]
fn encode_windows1251(text: &str) -> (r: Vec<u8>)
    requires
        codec_size_ok(text.spec_bytes().len() as int),
    ensures
        r@ == windows1251_encoded(text@),
{
    encoding_rs::WINDOWS_1251.encode(text).0.into_owned()
}

/// `text` as UTF-16 bytes in the given byte order.
fn encode_utf16(text: &str, big_endian: bool) -> (r: Vec<u8>)
    ensures
        r@ == utf16_bytes(text@, big_endian),
{
    let units = wide(text);
    let n = units.len() - 1;
    let mut out: Vec<u8> = Vec::new();
    let mut i: usize = 0;
    while i < n
        invariant
            units@ == utf16_of(text@).push(0u16),
            n == units@.len() - 1,
            i <= n,
            out@ == unit_bytes(units@.take(i as int), big_endian),
        decreases n - i,
    {
        let w = units[i];
        let lo = (w % 256) as u8;
        let hi = (w / 256) as u8;
        if big_endian {
            out.push(hi);
            out.push(lo);
        } else {
            out.push(lo);
            out.push(hi);
        }
        proof {
            let t = units@.take(i + 1);
            assert(t.drop_last() =~= units@.take(i as int));
            assert(t.last() == w);
        }
        i = i + 1;
    }
    assert(units@.take(n as int) =~= utf16_of(text@));
    out
}

/// What `decode_to_utf8` returns for `bytes` read as `encoding`.
pub open spec fn decoded(bytes: Seq<u8>, encoding: FileEncoding) -> (Seq<u8>, bool) {
    let payload = without_bom(bytes, encoding);
    match encoding {
        FileEncoding::Utf8 | FileEncoding::Utf8Bom => (payload, !is_utf8(payload)),
        FileEncoding::Utf16Le => utf16le_decoded(payload),
        FileEncoding::Utf16Be => utf16be_decoded(payload),
        FileEncoding::Windows1251 => windows1251_decoded(payload),
    }
}

/// Converts file bytes in `encoding` to UTF-8, without the byte order mark;
/// the flag tells whether the input was malformed. UTF-16 written by
/// `encode_chunk_from_utf8`, with or without its byte order mark in front,
/// reads back as the text it was written from, unless its code units begin
/// like a byte order mark.
pub fn decode_to_utf8(bytes: &[u8], encoding: FileEncoding) -> (r: (Vec<u8>, bool))
    requires
        codec_size_ok(bytes@.len() as int),
    ensures
        (r.0@, r.1) == decoded(bytes@, encoding),
        encoding == FileEncoding::Utf16Le || encoding == FileEncoding::Utf16Be ==> forall|text: Seq<u8>|
            is_utf8(text) && !begins_with_any_bom(#[trigger] encoded(text, encoding)) && (bytes@ == encoded(
                text,
                encoding,
            ) || bytes@ == bom_of(encoding) + encoded(text, encoding)) ==> r.0@ == text && !r.1,
{
    let payload = strip_bom(bytes, encoding);
    match encoding {
        FileEncoding::Utf8 | FileEncoding::Utf8Bom => {
            let valid = utf8_ok(payload);
            (vstd::slice::slice_to_vec(payload), !valid)
        },
        FileEncoding::Utf16Le | FileEncoding::Utf16Be => {
            let big_endian = match encoding {
                FileEncoding::Utf16Be => true,
                _ => false,
            };
            let r = if big_endian {
                decode_utf16be(payload)
            } else {
                decode_utf16le(payload)
            };
            proof {
                assert forall|text: Seq<u8>|
                    is_utf8(text) && !begins_with_any_bom(#[trigger] encoded(text, encoding)) && (bytes@ == encoded(
                        text,
                        encoding,
                    ) || bytes@ == bom_of(encoding) + encoded(text, encoding)) implies r.0@ == text && !r.1 by {
                    let units = encoded(text, encoding);
                    lemma_own_bom_stripped(units, encoding);
                    vstd::utf8::decode_utf8_encode_utf8(text);
                    assert(payload@ == units);
                    assert(units == utf16_bytes(vstd::utf8::decode_utf8(text), big_endian));
                }
            }
            r
        },
        FileEncoding::Windows1251 => decode_windows1251(payload),
    }
}

/// What `encode_chunk_from_utf8` returns for UTF-8 `text` written as
/// `encoding`: UTF-8 keeps the bytes, UTF-16 writes the code units in its
/// byte order, Windows-1251 encodes; text that is not UTF-8 is written as
/// nothing, except in UTF-8.
pub open spec fn encoded(text: Seq<u8>, encoding: FileEncoding) -> Seq<u8> {
    let chars = if is_utf8(text) { vstd::utf8::decode_utf8(text) } else { Seq::empty() };
    match encoding {
        FileEncoding::Utf8 | FileEncoding::Utf8Bom => text,
        FileEncoding::Windows1251 => windows1251_encoded(chars),
        FileEncoding::Utf16Le => utf16_bytes(chars, false),
        FileEncoding::Utf16Be => utf16_bytes(chars, true),
    }
}

/// Converts UTF-8 `text` to `encoding` for writing.
pub fn encode_chunk_from_utf8(text: &[u8], encoding: FileEncoding) -> (r: Vec<u8>)
    requires
        codec_size_ok(text@.len() as int),
    ensures
        r@ == encoded(text@, encoding),
{
    match encoding {
        FileEncoding::Utf8 | FileEncoding::Utf8Bom => {
            return vstd::slice::slice_to_vec(text);
        },
        _ => {},
    }
    let src: &str = match str_from_utf8(text) {
        Some(s) => s,
        None => "",
    };
    proof {
        reveal_strlit("");
        if !is_utf8(text@) {
            assert(src@ =~= Seq::<char>::empty());
            assert(src.spec_bytes() =~= Seq::<u8>::empty());
        } else {
            vstd::utf8::decode_utf8_encode_utf8(text@);
        }
    }
    match encoding {
        FileEncoding::Windows1251 => encode_windows1251(src),
        FileEncoding::Utf16Le => encode_utf16(src, false),
        _ => encode_utf16(src, true),
    }
}

/// The byte order mark written in front of a file saved as `encoding`.
pub open spec fn bom_of(encoding: FileEncoding) -> Seq<u8> {
    match encoding {
        FileEncoding::Utf8Bom => utf8_bom(),
        FileEncoding::Utf16Le => utf16le_bom(),
        FileEncoding::Utf16Be => utf16be_bom(),
        _ => Seq::empty(),
    }
}

proof fn lemma_utf16_of_concat(s1: Seq<char>, s2: Seq<char>)
    ensures
        utf16_of(s1 + s2) == utf16_of(s1) + utf16_of(s2),
    decreases s2.len(),
{
    if s2.len() == 0 {
        assert(s1 + s2 =~= s1);
        assert(utf16_of(s1) + utf16_of(s2) =~= utf16_of(s1));
    } else {
        let s = s1 + s2;
        assert(s.drop_last() =~= s1 + s2.drop_last());
        assert(s.last() == s2.last());
        lemma_utf16_of_concat(s1, s2.drop_last());
        assert(utf16_of(s) =~= utf16_of(s1) + utf16_of(s2));
    }
}

proof fn lemma_unit_bytes_concat(u1: Seq<u16>, u2: Seq<u16>, big_endian: bool)
    ensures
        unit_bytes(u1 + u2, big_endian) == unit_bytes(u1, big_endian) + unit_bytes(u2, big_endian),
    decreases u2.len(),
{
    if u2.len() == 0 {
        assert(u1 + u2 =~= u1);
        assert(unit_bytes(u1, big_endian) + unit_bytes(u2, big_endian) =~= unit_bytes(u1, big_endian));
    } else {
        let u = u1 + u2;
        assert(u.drop_last() =~= u1 + u2.drop_last());
        assert(u.last() == u2.last());
        lemma_unit_bytes_concat(u1, u2.drop_last(), big_endian);
        assert(unit_bytes(u, big_endian) =~= unit_bytes(u1, big_endian) + unit_bytes(u2, big_endian));
    }
}

/// Two character boundaries of valid UTF-8 that are `i` bytes apart from
/// `a`: the bytes between them are valid, and the boundary at `a + i` is
/// one of the bytes from `a` on too.
proof fn lemma_sub_boundary(text: Seq<u8>, a: int, c: int, b: int)
    requires
        vstd::utf8::valid_utf8(text),
        0 <= a <= b <= c <= text.len(),
        vstd::utf8::is_char_boundary(text, a),
        vstd::utf8::is_char_boundary(text, b),
        vstd::utf8::is_char_boundary(text, c),
    ensures
        vstd::utf8::valid_utf8(text.subrange(a, c)),
        vstd::utf8::is_char_boundary(text.subrange(a, c), b - a),
{
    let y = text.subrange(0, c);
    vstd::utf8::valid_utf8_split(text, c);
    if a < c {
        vstd::utf8::is_char_boundary_iff_not_is_continuation_byte(text, a);
        vstd::utf8::is_char_boundary_iff_not_is_continuation_byte(y, a);
    } else {
        vstd::utf8::is_char_boundary_start_end_of_seq(y);
    }
    vstd::utf8::valid_utf8_split(y, a);
    let z = y.subrange(a, c);
    assert(z =~= text.subrange(a, c));
    if b < c {
        vstd::utf8::is_char_boundary_iff_not_is_continuation_byte(text, b);
        vstd::utf8::is_char_boundary_iff_not_is_continuation_byte(z, b - a);
    } else {
        vstd::utf8::is_char_boundary_start_end_of_seq(z);
    }
}

/// Writing a valid UTF-8 text in pieces cut at character boundaries, in
/// UTF-8 or UTF-16, writes what writing it whole does.
pub proof fn lemma_encoded_concat(text: Seq<u8>, a: int, b: int, c: int, encoding: FileEncoding)
    requires
        is_utf8(text),
        0 <= a <= b <= c <= text.len(),
        vstd::utf8::is_char_boundary(text, a),
        vstd::utf8::is_char_boundary(text, b),
        vstd::utf8::is_char_boundary(text, c),
        encoding != FileEncoding::Windows1251,
    ensures
        encoded(text.subrange(a, b), encoding) + encoded(text.subrange(b, c), encoding) == encoded(
            text.subrange(a, c),
            encoding,
        ),
{
    let z = text.subrange(a, c);
    lemma_sub_boundary(text, a, c, b);
    let k = b - a;
    vstd::utf8::valid_utf8_split(z, k);
    vstd::utf8::decode_utf8_split(z, k);
    assert(z.subrange(0, k) =~= text.subrange(a, b));
    assert(z.subrange(k, z.len() as int) =~= text.subrange(b, c));
    let d1 = vstd::utf8::decode_utf8(text.subrange(a, b));
    let d2 = vstd::utf8::decode_utf8(text.subrange(b, c));
    lemma_utf16_of_concat(d1, d2);
    lemma_unit_bytes_concat(utf16_of(d1), utf16_of(d2), false);
    lemma_unit_bytes_concat(utf16_of(d1), utf16_of(d2), true);
    assert(text.subrange(a, b) + text.subrange(b, c) =~= z);
}

/// The payload of UTF-16 bytes written with or without their byte order
/// mark is the code units themselves, when those do not begin like a mark.
proof fn lemma_own_bom_stripped(units: Seq<u8>, encoding: FileEncoding)
    requires
        encoding == FileEncoding::Utf16Le || encoding == FileEncoding::Utf16Be,
        !begins_with_any_bom(units),
    ensures
        without_bom(units, encoding) == units,
        without_bom(bom_of(encoding) + units, encoding) == units,
{
    let b = bom_of(encoding) + units;
    assert(b.take(2) =~= bom_of(encoding));
    assert(b.skip(2) =~= units);
}

} // verus!

use vstd::prelude::*;
use vstd::string::*;
use vstd::std_specs::iter::IteratorSpec;

verus! {

/// The bytes `u8::is_ascii_whitespace` accepts: space, tab, line feed, form
/// feed and carriage return.
pub open spec fn is_ascii_space(b: u8) -> bool {
    b == 32u8 || b == 9u8 || b == 10u8 || b == 12u8 || b == 13u8
}

pub open spec fn is_ascii_digit(b: u8) -> bool {
    48u8 <= b <= 57u8
}

pub open spec fn is_ascii_alnum(b: u8) -> bool {
    is_ascii_digit(b) || (65u8 <= b <= 90u8) || (97u8 <= b <= 122u8)
}

pub fn ascii_space(b: u8) -> (r: bool)
    ensures
        r == is_ascii_space(b),
{
    b == 32u8 || b == 9u8 || b == 10u8 || b == 12u8 || b == 13u8
}

pub fn ascii_digit(b: u8) -> (r: bool)
    ensures
        r == is_ascii_digit(b),
{
    48u8 <= b && b <= 57u8
}

pub fn ascii_alnum(b: u8) -> (r: bool)
    ensures
        r == is_ascii_alnum(b),
{
    (48u8 <= b && b <= 57u8) || (65u8 <= b && b <= 90u8) || (97u8 <= b && b <= 122u8)
}

/// The characters `char::is_whitespace` accepts: those with the Unicode
/// White_Space property.
pub open spec fn is_white_space(c: char) -> bool {
    let u = c as u32;
    ||| (0x09 <= u <= 0x0D)
    ||| u == 0x20
    ||| u == 0x85
    ||| u == 0xA0
    ||| u == 0x1680
    ||| (0x2000 <= u <= 0x200A)
    ||| u == 0x2028
    ||| u == 0x2029
    ||| u == 0x202F
    ||| u == 0x205F
    ||| u == 0x3000
}

/// How many characters at the start of `s` are white space.
pub open spec fn leading_white(s: Seq<char>) -> nat
    decreases s.len(),
{
    if s.len() > 0 && is_white_space(s[0]) {
        1 + leading_white(s.drop_first())
    } else {
        0
    }
}

pub proof fn lemma_leading_white_len(s: Seq<char>)
    ensures
        leading_white(s) <= s.len(),
    decreases s.len(),
{
    if s.len() > 0 && is_white_space(s[0]) {
        lemma_leading_white_len(s.drop_first());
    }
}

/// The length of the encoding of a prefix of characters is a character
/// boundary of the encoding of the whole.
proof fn lemma_encoded_prefix_boundary(a: Seq<char>, b: Seq<char>)
    ensures
        vstd::utf8::is_char_boundary(vstd::utf8::encode_utf8(a + b), vstd::utf8::encode_utf8(a).len() as int),
    decreases a.len(),
{
    let x = vstd::utf8::encode_utf8(a + b);
    vstd::utf8::encode_utf8_valid_utf8(a + b);
    if a.len() > 0 {
        let ab = a + b;
        vstd::utf8::encode_utf8_first_scalar(ab);
        assert(ab.drop_first() =~= a.drop_first() + b);
        assert(ab[0] == a[0]);
        assert(vstd::utf8::pop_first_scalar(x) =~= vstd::utf8::encode_utf8(a.drop_first() + b));
        lemma_encoded_prefix_boundary(a.drop_first(), b);
        lemma_encode_concat(a.drop_first(), b);
    }
}

/// `str::trim_start`: `s` without its leading white space.
pub(crate) fn str_trim_start(s: &str) -> (r: &str)
    ensures
        r@ == s@.skip(leading_white(s@) as int),
{
    let chars = chars_of(s);
    let ghost all = s@;
    // Reading the byte length brings in that it fits a usize.
    let byte_len = s.as_bytes().len();
    let mut k: usize = 0;
    let mut mid: usize = 0;
    proof {
        lemma_encode_concat(all.take(0), all.skip(0));
        assert(all.take(0) + all.skip(0) =~= all);
        assert(vstd::utf8::encode_utf8(all.take(0)) =~= Seq::<u8>::empty());
    }
    while k < chars.len() && white_space(chars[k])
        invariant
            chars@ == all,
            all == s@,
            k <= chars@.len(),
            forall|i: int| 0 <= i < k ==> is_white_space(#[trigger] all[i]),
            mid == vstd::utf8::encode_utf8(all.take(k as int)).len(),
            mid <= s.spec_bytes().len(),
            byte_len == s.spec_bytes().len(),
        decreases chars@.len() - k,
    {
        let w = utf8_width(chars[k]);
        proof {
            let p = all.take(k as int);
            let q = all.take(k + 1);
            assert(q =~= p + seq![all[k as int]]);
            lemma_encode_concat(p, seq![all[k as int]]);
            lemma_encode_concat(q, all.skip(k + 1));
            assert(q + all.skip(k + 1) =~= all);
            assert(mid + w == vstd::utf8::encode_utf8(q).len());
        }
        mid = mid + w;
        k = k + 1;
    }
    proof {
        let p = all.take(k as int);
        assert(p + all.skip(k as int) =~= all);
        lemma_encoded_prefix_boundary(p, all.skip(k as int));
        lemma_encode_concat(p, all.skip(k as int));
        lemma_leading_white_is(all, k as int);
    }
    let (_, rest) = s.split_at(mid);
    proof {
        let t = all.skip(k as int);
        assert(rest.spec_bytes() =~= vstd::utf8::encode_utf8(t));
        vstd::utf8::encode_utf8_decode_utf8(rest@);
        vstd::utf8::encode_utf8_decode_utf8(t);
    }
    rest
}

/// The leading white space of `s` is its first `k` characters when those
/// are white space and the next one is not.
proof fn lemma_leading_white_is(s: Seq<char>, k: int)
    requires
        0 <= k <= s.len(),
        forall|i: int| 0 <= i < k ==> is_white_space(#[trigger] s[i]),
        k < s.len() ==> !is_white_space(s[k]),
    ensures
        leading_white(s) == k,
    decreases k,
{
    if k > 0 {
        let d = s.drop_first();
        assert forall|i: int| 0 <= i < k - 1 implies is_white_space(#[trigger] d[i]) by {
            assert(d[i] == s[i + 1]);
        }
        if k < s.len() {
            assert(d[k - 1] == s[k]);
        }
        lemma_leading_white_is(d, k - 1);
        assert(is_white_space(s[0]));
    }
}

/// A run of ASCII bytes is well-formed UTF-8.
pub proof fn lemma_ascii_is_utf8(bytes: Seq<u8>)
    requires
        forall|i: int| 0 <= i < bytes.len() ==> bytes[i] < 128,
    ensures
        is_utf8(bytes),
{
    assert(bytes.subrange(0, 0) =~= Seq::<u8>::empty());
    assert(vstd::utf8::partial_valid_utf8(bytes, 0));
    vstd::utf8::partial_valid_utf8_extend_ascii_block(bytes, 0, bytes.len() as int);
    assert(bytes.subrange(0, bytes.len() as int) =~= bytes);
}

/// Dropping characters from the front never lengthens the UTF-8 encoding.
pub proof fn lemma_encode_skip_len(s: Seq<char>, k: int)
    requires
        0 <= k <= s.len(),
    ensures
        vstd::utf8::encode_utf8(s.skip(k)).len() <= vstd::utf8::encode_utf8(s).len(),
    decreases k,
{
    if k > 0 {
        lemma_encode_skip_len(s, k - 1);
        let x = s.skip(k - 1);
        assert(x.len() > 0);
        assert(x.drop_first() =~= s.skip(k));
        assert(vstd::utf8::encode_utf8(x) == vstd::utf8::encode_scalar(x[0] as u32) + vstd::utf8::encode_utf8(x.drop_first()));
        assert(vstd::utf8::encode_utf8(x.drop_first()).len() <= vstd::utf8::encode_utf8(x).len());
    } else {
        assert(s.skip(0) =~= s);
    }
}

/// The UTF-8 encoding of a concatenation is the concatenation of the
/// encodings.
pub proof fn lemma_encode_concat(a: Seq<char>, b: Seq<char>)
    ensures
        vstd::utf8::encode_utf8(a + b) == vstd::utf8::encode_utf8(a) + vstd::utf8::encode_utf8(b),
    decreases a.len(),
{
    if a.len() == 0 {
        assert(a + b =~= b);
        assert(vstd::utf8::encode_utf8(a) =~= Seq::<u8>::empty());
        assert(Seq::<u8>::empty() + vstd::utf8::encode_utf8(b) =~= vstd::utf8::encode_utf8(b));
    } else {
        lemma_encode_concat(a.drop_first(), b);
        assert((a + b).drop_first() =~= a.drop_first() + b);
        assert((a + b)[0] == a[0]);
        let e0 = vstd::utf8::encode_scalar(a[0] as u32);
        assert(vstd::utf8::encode_utf8(a + b) == e0 + vstd::utf8::encode_utf8((a + b).drop_first()));
        assert(vstd::utf8::encode_utf8(a) == e0 + vstd::utf8::encode_utf8(a.drop_first()));
        assert(e0 + (vstd::utf8::encode_utf8(a.drop_first()) + vstd::utf8::encode_utf8(b)) =~= (e0 + vstd::utf8::encode_utf8(a.drop_first())) + vstd::utf8::encode_utf8(b));
    }
}

/// The number of bytes of `c` in UTF-8 (`char::len_utf8`).
pub fn utf8_width(c: char) -> (r: usize)
    ensures
        r == vstd::utf8::encode_utf8(seq![c]).len(),
        1 <= r <= 4,
{
    let u = c as u32;
    proof {
        assert(seq![c].drop_first() =~= Seq::<char>::empty());
        assert(vstd::utf8::encode_utf8(seq![c]) == vstd::utf8::encode_scalar(c as u32) + vstd::utf8::encode_utf8(seq![c].drop_first()));
        assert(vstd::utf8::encode_utf8(Seq::<char>::empty()) =~= Seq::<u8>::empty());
        assert(vstd::utf8::encode_utf8(seq![c]) =~= vstd::utf8::encode_scalar(c as u32));
        vstd::utf8::char_is_scalar(c);
    }
    if u < 0x80 {
        1
    } else if u < 0x800 {
        2
    } else if u < 0x10000 {
        3
    } else {
        4
    }
}

/// The number of bytes of the UTF-8 encoding of `chars[from .. to]`.
pub fn utf8_len_of(chars: &[char], from: usize, to: usize) -> (r: usize)
    requires
        from <= to <= chars@.len(),
        vstd::utf8::encode_utf8(chars@.subrange(from as int, to as int)).len() <= usize::MAX,
    ensures
        r == vstd::utf8::encode_utf8(chars@.subrange(from as int, to as int)).len(),
{
    let mut total: usize = 0;
    let mut k = from;
    while k < to
        invariant
            from <= k <= to <= chars@.len(),
            total == vstd::utf8::encode_utf8(chars@.subrange(from as int, k as int)).len(),
            vstd::utf8::encode_utf8(chars@.subrange(from as int, to as int)).len() <= usize::MAX,
        decreases to - k,
    {
        let w = utf8_width(chars[k]);
        proof {
            let a = chars@.subrange(from as int, k as int);
            assert(chars@.subrange(from as int, k + 1) =~= a + seq![chars@[k as int]]);
            lemma_encode_concat(a, seq![chars@[k as int]]);
            let rest = chars@.subrange(k + 1, to as int);
            assert(chars@.subrange(from as int, to as int) =~= chars@.subrange(from as int, k + 1) + rest);
            lemma_encode_concat(chars@.subrange(from as int, k + 1), rest);
        }
        total = total + w;
        k = k + 1;
    }
    total
}

/// What `Path::extension` gives for the path written `path`: the text
/// after the last dot of its final component, if it has one.
pub uninterp spec fn extension_of(path: Seq<char>) -> Option<Seq<char>>;

/// Whether `std::path::is_separator` takes `c` for a path separator on the
/// platform the program runs on.
pub uninterp spec fn is_path_separator(c: char) -> bool;

/// `std::path::is_separator(c)`. std documents the separators: `/` on every
/// platform, and the backslash as well on Windows; no other character.
#[verifier::external_body]
pub(crate) fn path_separator(c: char) -> (r: bool)
    ensures
        r == is_path_separator(c),
        c == '/' ==> r,
        r ==> c == '/' || c == '\\',
{
    std::path::is_separator(c)
}

/// `Path::new(path).extension()`, as text (the extension of a path given as
/// text is text too). The extension lies within the final component, so it
/// holds no path separator.
#[verifier::external_body]
pub(crate) fn path_extension(path: &str) -> (r: Option<&str>)
    ensures
        r matches Some(e) ==> extension_of(path@) == Some(e@) && forall|i: int|
            0 <= i < e@.len() ==> !is_path_separator(#[trigger] e@[i]),
        r is None ==> extension_of(path@) is None,
{
    match std::path::Path::new(path).extension() {
        Some(e) => e.to_str(),
        None => None,
    }
}

/// The characters of `s`.
pub fn chars_of(s: &str) -> (r: Vec<char>)
    ensures
        r@ == s@,
{
    broadcast use vstd::string::group_string_axioms;

    let mut it = s.chars();
    let mut out: Vec<char> = Vec::new();
    loop
        invariant
            out@ + it.remaining() == s@,
            it.decrease() is Some,
        ensures
            out@ == s@,
        decreases it.decrease()->0,
    {
        match it.next() {
            Some(c) => {
                out.push(c);
            },
            None => {
                assert(out@ + Seq::<char>::empty() =~= out@);
                break;
            },
        }
    }
    out
}

/// `String::from_iter` over characters: the string of `chars`.
#[verifier::external_body]
pub(crate) fn string_from_chars(chars: &[char]) -> (r: String)
    ensures
        r@ == chars@,
{
    String::from_iter(chars)
}

/// `char::is_whitespace`.
pub fn white_space(c: char) -> (r: bool)
    ensures
        r == is_white_space(c),
{
    let u = c as u32;
    (0x09 <= u && u <= 0x0D) || u == 0x20 || u == 0x85 || u == 0xA0 || u == 0x1680 || (0x2000 <= u && u <= 0x200A)
        || u == 0x2028 || u == 0x2029 || u == 0x202F || u == 0x205F || u == 0x3000
}

/// A non-empty text has a non-empty UTF-8 encoding.
pub proof fn lemma_encode_nonempty(s: Seq<char>)
    requires
        s.len() > 0,
    ensures
        vstd::utf8::encode_utf8(s).len() > 0,
{
    assert(vstd::utf8::encode_utf8(s) == vstd::utf8::encode_scalar(s[0] as u32) + vstd::utf8::encode_utf8(s.drop_first()));
}

/// The largest character boundary of `s` at or before `i` (the length when
/// `i` is past the end).
pub fn floor_char_boundary(s: &str, i: usize) -> (r: usize)
    ensures
        i >= s.spec_bytes().len() ==> r == s.spec_bytes().len(),
        i < s.spec_bytes().len() ==> {
            &&& r <= i
            &&& vstd::utf8::is_char_boundary(s.spec_bytes(), r as int)
            &&& forall|j: int| r < j <= i ==> !vstd::utf8::is_char_boundary(s.spec_bytes(), j)
        },
{
    let len = s.as_bytes().len();
    if i >= len {
        return len;
    }
    let mut k = i;
    while k > 0 && !s.is_char_boundary(k)
        invariant
            k <= i < len,
            len == s.spec_bytes().len(),
            forall|j: int| k < j <= i ==> !vstd::utf8::is_char_boundary(s.spec_bytes(), j),
        decreases k,
    {
        k = k - 1;
    }
    proof {
        if k == 0 {
            vstd::utf8::encode_utf8_valid_utf8(s@);
            vstd::utf8::is_char_boundary_start_end_of_seq(s.spec_bytes());
        }
    }
    k
}

/// The smallest character boundary of `s` at or after `i` (the length when
/// `i` is past the end).
pub fn ceil_char_boundary(s: &str, i: usize) -> (r: usize)
    ensures
        i >= s.spec_bytes().len() ==> r == s.spec_bytes().len(),
        i < s.spec_bytes().len() ==> {
            &&& i <= r <= s.spec_bytes().len()
            &&& vstd::utf8::is_char_boundary(s.spec_bytes(), r as int)
            &&& forall|j: int| i <= j < r ==> !vstd::utf8::is_char_boundary(s.spec_bytes(), j)
        },
{
    let len = s.as_bytes().len();
    if i >= len {
        return len;
    }
    let mut k = i;
    while k < len && !s.is_char_boundary(k)
        invariant
            i <= k <= len,
            len == s.spec_bytes().len(),
            forall|j: int| i <= j < k ==> !vstd::utf8::is_char_boundary(s.spec_bytes(), j),
        decreases len - k,
    {
        k = k + 1;
    }
    proof {
        if k == len {
            vstd::utf8::encode_utf8_valid_utf8(s@);
            vstd::utf8::is_char_boundary_start_end_of_seq(s.spec_bytes());
        }
    }
    k
}

/// The UTF-16 code units of `c`: one below U+10000, else a surrogate pair.
pub open spec fn utf16_of_char(c: char) -> Seq<u16> {
    let v = c as u32;
    if v < 0x10000 {
        seq![v as u16]
    } else {
        let w = v - 0x10000;
        seq![(0xD800 + w / 1024) as u16, (0xDC00 + w % 1024) as u16]
    }
}

/// The UTF-16 encoding of `s`.
pub open spec fn utf16_of(s: Seq<char>) -> Seq<u16>
    decreases s.len(),
{
    if s.len() == 0 {
        Seq::empty()
    } else {
        utf16_of(s.drop_last()) + utf16_of_char(s.last())
    }
}

/// `s` as a NUL-terminated UTF-16 string, as Win32 calls take text.
pub fn wide(s: &str) -> (r: Vec<u16>)
    ensures
        r@ == utf16_of(s@).push(0u16),
{
    let chars = chars_of(s);
    let mut out: Vec<u16> = Vec::new();
    let mut i: usize = 0;
    while i < chars.len()
        invariant
            chars@ == s@,
            i <= chars@.len(),
            out@ == utf16_of(chars@.take(i as int)),
        decreases chars@.len() - i,
    {
        let v = chars[i] as u32;
        proof {
            vstd::utf8::char_is_scalar(chars[i as int]);
            assert(chars@.take(i + 1).drop_last() =~= chars@.take(i as int));
        }
        if v < 0x10000 {
            out.push(v as u16);
        } else {
            let w = v - 0x10000;
            out.push((0xD800 + w / 1024) as u16);
            out.push((0xDC00 + w % 1024) as u16);
        }
        assert(out@ =~= utf16_of(chars@.take(i + 1)));
        i = i + 1;
    }
    assert(chars@.take(chars@.len() as int) =~= chars@);
    out.push(0);
    out
}

/// The decimal digit character of `d`.
pub open spec fn digit_char(d: int) -> char {
    if d == 0 {
        '0'
    } else if d == 1 {
        '1'
    } else if d == 2 {
        '2'
    } else if d == 3 {
        '3'
    } else if d == 4 {
        '4'
    } else if d == 5 {
        '5'
    } else if d == 6 {
        '6'
    } else if d == 7 {
        '7'
    } else if d == 8 {
        '8'
    } else {
        '9'
    }
}

/// `n` written in decimal.
pub open spec fn decimal(n: nat) -> Seq<char>
    decreases n,
{
    if n < 10 {
        seq![digit_char(n as int)]
    } else {
        decimal(n / 10).push(digit_char((n % 10) as int))
    }
}

fn digit(d: usize) -> (r: char)
    requires
        d < 10,
    ensures
        r == digit_char(d as int),
{
    if d == 0 {
        '0'
    } else if d == 1 {
        '1'
    } else if d == 2 {
        '2'
    } else if d == 3 {
        '3'
    } else if d == 4 {
        '4'
    } else if d == 5 {
        '5'
    } else if d == 6 {
        '6'
    } else if d == 7 {
        '7'
    } else if d == 8 {
        '8'
    } else {
        '9'
    }
}

/// `n` written in decimal (as `usize::to_string` writes it).
pub fn decimal_text(n: usize) -> (r: String)
    ensures
        r@ == decimal(n as nat),
    decreases n,
{
    if n < 10 {
        let one = [digit(n)];
        let r = string_from_chars(&one);
        assert(r@ =~= seq![digit_char(n as int)]);
        return r;
    }
    let head = decimal_text(n / 10);
    let mut chars = chars_of(head.as_str());
    chars.push(digit(n % 10));
    string_from_chars(chars.as_slice())
}

/// Whether `bytes` is well-formed UTF-8.
pub open spec fn is_utf8(bytes: Seq<u8>) -> bool {
    vstd::utf8::valid_utf8(bytes)
}

/// Checks `bytes` with `std::str::from_utf8`, which accepts exactly the
/// well-formed UTF-8 sequences.
#[verifier::external_body]
pub(crate) fn utf8_ok(bytes: &[u8]) -> (r: bool)
    ensures
        r == is_utf8(bytes@),
{
    std::str::from_utf8(bytes).is_ok()
}

/// `std::str::from_utf8`: the string when `bytes` is well-formed UTF-8;
/// its bytes are `bytes` and its characters their decoding.
#[verifier::external_body]
pub(crate) fn str_from_utf8(bytes: &[u8]) -> (r: Option<&str>)
    ensures
        r is Some <==> is_utf8(bytes@),
        r matches Some(s) ==> s@ == vstd::utf8::decode_utf8(bytes@),
{
    std::str::from_utf8(bytes).ok()
}

/// `String::from_utf8`: the string when `bytes` is well-formed UTF-8, else
/// nothing; the string's UTF-8 encoding is `bytes` itself.
#[verifier::external_body]
pub(crate) fn string_from_utf8(bytes: Vec<u8>) -> (r: Option<String>)
    ensures
        r is Some <==> is_utf8(bytes@),
        r matches Some(s) ==> s@ == vstd::utf8::decode_utf8(bytes@),
{
    String::from_utf8(bytes).ok()
}

/// What `String::from_utf8_lossy` makes of `bytes`: the decoded text, each
/// ill-formed sequence replaced by U+FFFD.
pub uninterp spec fn lossy_text(bytes: Seq<u8>) -> Seq<char>;

/// `String::from_utf8_lossy(bytes).into_owned()`. On well-formed UTF-8 the
/// text is the decoding of `bytes` (the documented borrowed case).
#[verifier::external_body]
pub(crate) fn utf8_lossy(bytes: &[u8]) -> (r: String)
    ensures
        r@ == lossy_text(bytes@),
        is_utf8(bytes@) ==> r@ == vstd::utf8::decode_utf8(bytes@),
{
    String::from_utf8_lossy(bytes).into_owned()
}


/// `char::from_u32(v)`: the character whose scalar value is `v`; none for a
/// value that is no Unicode scalar value (past U+10FFFF, or a surrogate),
/// as std documents it.
#[verifier::external_body]
pub(crate) fn char_from_u32(v: u32) -> (r: Option<char>)
    ensures
        r is Some <==> (v <= 0x10FFFF && !(0xD800 <= v <= 0xDFFF)),
        r matches Some(c) ==> c as u32 == v,
{
    char::from_u32(v)
}

} // verus!

use vstd::prelude::*;
use crate::language::{extensions_of, BuiltinMode, LanguageId, LanguageMode};
use crate::text::{chars_of, extension_of, path_extension};

verus! {

/// `c` is an ASCII capital letter.
pub open spec fn is_ascii_upper(c: char) -> bool {
    0x41 <= (c as u32) && (c as u32) <= 0x5a
}

/// `a` and `b` are the same character once ASCII letters are lowered.
pub open spec fn same_ignoring_case(a: char, b: char) -> bool {
    ||| a == b
    ||| is_ascii_upper(a) && (a as u32) + 32 == (b as u32)
    ||| is_ascii_upper(b) && (b as u32) + 32 == (a as u32)
}

/// `a` and `b` are equal up to the case of ASCII letters.
pub open spec fn eq_ignore_ascii_case(a: Seq<char>, b: Seq<char>) -> bool {
    &&& a.len() == b.len()
    &&& forall|i: int| 0 <= i < a.len() ==> same_ignoring_case(#[trigger] a[i], b[i])
}

/// The mode lists `ext` among its extensions, ignoring ASCII case.
pub open spec fn claims_extension(m: BuiltinMode, ext: Seq<char>) -> bool {
    exists|k: int|
        0 <= k < extensions_of(m.language()).len() && eq_ignore_ascii_case(
            #[trigger] extensions_of(m.language())[k],
            ext,
        )
}

/// The language of the first mode, from index `k` on, that claims `ext`.
pub open spec fn mode_for_extension(modes: Seq<BuiltinMode>, ext: Seq<char>, k: int) -> Option<LanguageId>
    decreases modes.len() - k,
{
    if k < 0 || k >= modes.len() {
        None
    } else if claims_extension(modes[k], ext) {
        Some(modes[k].language())
    } else {
        mode_for_extension(modes, ext, k + 1)
    }
}

/// The language of the first mode, from index `k` on and other than plain
/// text, that claims the sample; plain text when none does.
pub open spec fn mode_by_sniff(modes: Seq<BuiltinMode>, sample: Seq<u8>, k: int) -> LanguageId
    decreases modes.len() - k,
{
    if k < 0 || k >= modes.len() {
        LanguageId::Unknown
    } else if modes[k].language() != LanguageId::Unknown && modes[k].sniffs(sample) {
        modes[k].language()
    } else {
        mode_by_sniff(modes, sample, k + 1)
    }
}

/// The language of a file with extension `ext` and first bytes `sample`:
/// the extension decides when a mode claims it, else the sample.
pub open spec fn detected_language(ext: Option<Seq<char>>, sample: Seq<u8>, modes: Seq<BuiltinMode>) -> LanguageId {
    match ext {
        Some(e) => match mode_for_extension(modes, e, 0) {
            Some(id) => id,
            None => mode_by_sniff(modes, sample, 0),
        },
        None => mode_by_sniff(modes, sample, 0),
    }
}

/// A file whose extension a mode claims gets that mode's language,
/// whatever its first bytes look like.
pub proof fn lemma_extension_beats_sniff(ext: Seq<char>, a: Seq<u8>, b: Seq<u8>, modes: Seq<BuiltinMode>)
    requires
        mode_for_extension(modes, ext, 0) is Some,
    ensures
        detected_language(Some(ext), a, modes) == detected_language(Some(ext), b, modes),
        detected_language(Some(ext), a, modes) == mode_for_extension(modes, ext, 0)->0,
{
}

fn same_char_ignoring_case(a: char, b: char) -> (r: bool)
    ensures
        r == same_ignoring_case(a, b),
{
    let x = a as u32;
    let y = b as u32;
    x == y || (0x41 <= x && x <= 0x5a && x + 32 == y) || (0x41 <= y && y <= 0x5a && y + 32 == x)
}

/// `a` and `b` are equal up to the case of ASCII letters.
pub fn eq_ignoring_ascii_case(a: &str, b: &str) -> (r: bool)
    ensures
        r == eq_ignore_ascii_case(a@, b@),
{
    let x = chars_of(a);
    let y = chars_of(b);
    if x.len() != y.len() {
        return false;
    }
    let mut i: usize = 0;
    while i < x.len()
        invariant
            x@ == a@,
            y@ == b@,
            x@.len() == y@.len(),
            i <= x@.len(),
            forall|j: int| 0 <= j < i ==> same_ignoring_case(#[trigger] a@[j], b@[j]),
        decreases x@.len() - i,
    {
        if !same_char_ignoring_case(x[i], y[i]) {
            return false;
        }
        i = i + 1;
    }
    true
}

fn claims(mode: BuiltinMode, ext: &str) -> (r: bool)
    ensures
        r == claims_extension(mode, ext@),
{
    let exts = mode.extensions();
    let ghost want = extensions_of(mode.language());
    let mut k: usize = 0;
    while k < exts.len()
        invariant
            k <= exts@.len(),
            exts@.len() == want.len(),
            want == extensions_of(mode.language()),
            forall|j: int| 0 <= j < exts@.len() ==> (#[trigger] exts@[j])@ == want[j],
            forall|j: int| 0 <= j < k ==> !eq_ignore_ascii_case(#[trigger] want[j], ext@),
        decreases exts@.len() - k,
    {
        if eq_ignoring_ascii_case(exts[k], ext) {
            assert(eq_ignore_ascii_case(want[k as int], ext@));
            return true;
        }
        assert(exts@[k as int]@ == want[k as int]);
        k = k + 1;
    }
    false
}

/// The language of a file whose extension is `ext`, with first bytes
/// `sample`, among `modes`.
pub fn detect_language_for_extension(ext: Option<&str>, sample: &[u8], modes: &[BuiltinMode]) -> (r: LanguageId)
    ensures
        r == detected_language(
            match ext {
                Some(e) => Some(e@),
                None => None,
            },
            sample@,
            modes@,
        ),
{
    let ghost ev = match ext {
        Some(x) => Some(x@),
        None => None,
    };
    if let Some(e) = ext {
        let mut k: usize = 0;
        while k < modes.len()
            invariant
                k <= modes@.len(),
                ev == Some(e@),
                ext == Some(e),
                mode_for_extension(modes@, e@, k as int) == mode_for_extension(modes@, e@, 0),
            decreases modes@.len() - k,
        {
            if claims(modes[k], e) {
                assert(mode_for_extension(modes@, e@, k as int) == Some(modes@[k as int].language()));
                assert(detected_language(ev, sample@, modes@) == modes@[k as int].language());
                return modes[k].id();
            }
            k = k + 1;
        }
    }
    assert(detected_language(ev, sample@, modes@) == mode_by_sniff(modes@, sample@, 0));
    let mut k: usize = 0;
    while k < modes.len()
        invariant
            k <= modes@.len(),
            detected_language(ev, sample@, modes@) == mode_by_sniff(modes@, sample@, 0),
            ev == (match ext {
                Some(x) => Some(x@),
                None => None,
            }),
            mode_by_sniff(modes@, sample@, k as int) == mode_by_sniff(modes@, sample@, 0),
        decreases modes@.len() - k,
    {
        let m = modes[k];
        let id = m.id();
        if id != LanguageId::Unknown && m.sniff(sample) {
            assert(mode_by_sniff(modes@, sample@, k as int) == id);
            return id;
        }
        k = k + 1;
    }
    LanguageId::Unknown
}

/// The extension of `path`, when there is a path.
pub open spec fn path_extension_of(path: Option<&str>) -> Option<Seq<char>> {
    match path {
        Some(p) => extension_of(p@),
        None => None,
    }
}

/// The language of the file at `path` (if it has one) with first bytes
/// `sample`: a mode that claims the path's extension, else the first mode
/// that recognises the sample, else plain text.
pub fn detect_language(path: Option<&str>, sample: &[u8], modes: &[BuiltinMode]) -> (r: LanguageId)
    ensures
        r == detected_language(path_extension_of(path), sample@, modes@),
{
    let ext = match path {
        Some(p) => path_extension(p),
        None => None,
    };
    let r = detect_language_for_extension(ext, sample, modes);
    let ghost e = match ext {
        Some(x) => Some(x@),
        None => None,
    };
    assert(r == detected_language(e, sample@, modes@));
    r
}

} // verus!

use fast_notepad::encoding::{decode_to_utf8, detect_encoding, encode_chunk_from_utf8, strip_bom, FileEncoding};

#[test]
fn detects_bom() {
    assert_eq!(
        detect_encoding(&[0xEF, 0xBB, 0xBF, b'h']),
        FileEncoding::Utf8Bom
    );
    assert_eq!(
        detect_encoding(&[0xFF, 0xFE, b'a', 0]),
        FileEncoding::Utf16Le
    );
}

#[test]
fn roundtrip_utf8() {
    let src = b"hello\nworld";
    let enc = encode_chunk_from_utf8(src, FileEncoding::Utf8);
    let (decoded, _) = decode_to_utf8(&enc, FileEncoding::Utf8);
    assert_eq!(decoded, src);
}

#[test]
fn roundtrip_windows1251() {
    let src = "Привет".as_bytes();
    let enc = encode_chunk_from_utf8(src, FileEncoding::Windows1251);
    let (decoded, had_errors) = decode_to_utf8(&enc, FileEncoding::Windows1251);
    assert!(!had_errors);
    assert_eq!(decoded, src);
}

#[test]
fn encoding_roundtrips() {
    for enc in [
        FileEncoding::Utf8,
        FileEncoding::Utf8Bom,
        FileEncoding::Windows1251,
    ] {
        let src = "Hello Привет\n".as_bytes();
        let mut encoded = Vec::new();
        if enc.write_bom() {
            encoded.extend_from_slice(&[0xEF, 0xBB, 0xBF]);
        }
        encoded.extend_from_slice(&encode_chunk_from_utf8(src, enc));
        let detected = detect_encoding(&encoded);
        if matches!(enc, FileEncoding::Utf8 | FileEncoding::Utf8Bom) {
            assert!(matches!(
                detected,
                FileEncoding::Utf8 | FileEncoding::Utf8Bom
            ));
        }
        let (decoded, _) = decode_to_utf8(&encoded, enc);
        assert_eq!(decoded, src);
    }
}

#[test]
fn windows1251_bytes_of_cyrillic() {
    let enc = encode_chunk_from_utf8("Привет".as_bytes(), FileEncoding::Windows1251);
    assert_eq!(enc, vec![0xCF, 0xF0, 0xE8, 0xE2, 0xE5, 0xF2]);
    assert_eq!(detect_encoding(&[0xCF, 0xF0, 0xE8, 0xE2, 0xE5, 0xF2]), FileEncoding::Windows1251);
}

#[test]
fn utf16_decoding() {
    let le = [0xFF, 0xFE, b'h', 0, b'i', 0];
    assert_eq!(detect_encoding(&le), FileEncoding::Utf16Le);
    assert_eq!(decode_to_utf8(&le, FileEncoding::Utf16Le), (b"hi".to_vec(), false));
    let be = [0xFE, 0xFF, 0, b'h', 0, b'i'];
    assert_eq!(detect_encoding(&be), FileEncoding::Utf16Be);
    assert_eq!(decode_to_utf8(&be, FileEncoding::Utf16Be), (b"hi".to_vec(), false));
    let unmarked = [0, b'a', 0, b'b', 0, b'c', 0, b'd'];
    assert_eq!(detect_encoding(&unmarked), FileEncoding::Utf16Be);
}

#[test]
fn utf16_writes_code_units() {
    assert_eq!(encode_chunk_from_utf8(b"A", FileEncoding::Utf16Le), vec![0x41, 0]);
    assert_eq!(encode_chunk_from_utf8(b"A", FileEncoding::Utf16Be), vec![0, 0x41]);
    assert_eq!(encode_chunk_from_utf8("hé".as_bytes(), FileEncoding::Utf16Le), vec![b'h', 0, 0xE9, 0]);
    assert_eq!(
        encode_chunk_from_utf8("😀".as_bytes(), FileEncoding::Utf16Be),
        vec![0xD8, 0x3D, 0xDE, 0x00]
    );
    assert_eq!(encode_chunk_from_utf8(&[0xFF], FileEncoding::Utf16Be), Vec::<u8>::new());
}

#[test]
fn utf16_saves_read_back() {
    let src = "Hello Привет 😀\n".as_bytes();
    for (enc, bom) in [(FileEncoding::Utf16Le, [0xFF, 0xFE]), (FileEncoding::Utf16Be, [0xFE, 0xFF])] {
        let units = encode_chunk_from_utf8(src, enc);
        assert_eq!(decode_to_utf8(&units, enc), (src.to_vec(), false));
        let mut file = bom.to_vec();
        file.extend_from_slice(&units);
        assert_eq!(detect_encoding(&file), enc);
        assert_eq!(decode_to_utf8(&file, enc), (src.to_vec(), false));
    }
}

#[test]
fn invalid_utf8_is_flagged_and_kept() {
    let bytes = [b'a', 0xC3];
    assert_eq!(decode_to_utf8(&bytes, FileEncoding::Utf8), (bytes.to_vec(), true));
}

#[test]
fn strip_bom_only_strips_a_present_mark() {
    assert_eq!(strip_bom(&[0xEF, 0xBB, 0xBF, b'x'], FileEncoding::Utf8Bom), b"x");
    assert_eq!(strip_bom(b"xy", FileEncoding::Utf8Bom), b"xy");
    assert_eq!(strip_bom(&[0xFF, 0xFE, b'x', 0], FileEncoding::Utf8), &[0xFF, 0xFE, b'x', 0]);
}

#[test]
fn encoding_labels() {
    assert_eq!(FileEncoding::Utf8.label(), "UTF-8");
    assert_eq!(FileEncoding::Windows1251.label(), "Windows-1251");
    assert!(FileEncoding::Utf8Bom.write_bom());
    assert!(!FileEncoding::Utf16Le.write_bom());
}

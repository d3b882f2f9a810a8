use std::path::{Path, PathBuf};
use std::sync::Arc;

use fast_notepad::buffer::{LineEnding, LineIndex};
use fast_notepad::encoding::FileEncoding;
use fast_notepad::file_io::{
    bom_bytes, build_line_index_incremental, open_document, save_chunk, temp_extension, temp_save_path, INDEX_CHUNK,
};

fn starts_of(index: &LineIndex) -> Vec<usize> {
    (0..index.line_count()).map(|i| index.line_start(i).unwrap()).collect()
}

#[test]
fn utf8_file_opens_with_a_lazy_index() {
    let bytes = Arc::new(b"\xEF\xBB\xBFline1\r\nline2\r\n".to_vec());
    let opened = open_document(bytes, PathBuf::from("a.txt"));
    assert_eq!(opened.encoding, FileEncoding::Utf8Bom);
    assert!(!opened.had_decode_errors);
    let mut doc = opened.document;
    assert_eq!(doc.slice(0, doc.len()).unwrap(), b"line1\r\nline2\r\n");
    assert_eq!(doc.line_ending(), LineEnding::CrLf);
    assert!(!doc.lines().is_complete());
    assert_eq!(doc.path(), Some(Path::new("a.txt")));
    assert!(build_line_index_incremental(&mut doc));
    assert!(doc.lines().is_complete());
    assert_eq!(starts_of(doc.lines()), vec![0, 7, 14]);
}

#[test]
fn other_encodings_are_decoded_and_indexed() {
    let bytes = Arc::new(vec![0xCF, 0xF0, b'\n', 0xE8]);
    let opened = open_document(bytes, PathBuf::from("b.txt"));
    assert_eq!(opened.encoding, FileEncoding::Windows1251);
    assert!(!opened.had_decode_errors);
    let doc = opened.document;
    assert_eq!(doc.slice(0, doc.len()).unwrap(), "Пр\nи".as_bytes());
    assert!(doc.lines().is_complete());
    assert_eq!(starts_of(doc.lines()), vec![0, 5]);
}

#[test]
fn incremental_index_of_a_large_file_equals_the_full_index() {
    let mut bytes = Vec::new();
    let line = b"0123456789abcdef0123456789abcdef\n";
    while bytes.len() < INDEX_CHUNK * 2 + 100 {
        bytes.extend_from_slice(line);
    }
    let opened = open_document(Arc::new(bytes.clone()), PathBuf::from("big.txt"));
    let mut doc = opened.document;
    let mut steps = 0;
    while !build_line_index_incremental(&mut doc) {
        steps += 1;
        assert_eq!(doc.lines().scan_cursor(), steps * INDEX_CHUNK);
    }
    assert_eq!(steps, 2);
    assert_eq!(doc.lines().scan_cursor(), bytes.len());
    assert_eq!(starts_of(doc.lines()), starts_of(&LineIndex::from_bytes(&bytes)));
    assert!(build_line_index_incremental(&mut doc));
}

#[test]
fn save_chunks_cover_the_document() {
    let opened = open_document(Arc::new("Hello Привет\n".as_bytes().to_vec()), PathBuf::from("c.txt"));
    let doc = opened.document;
    let (bytes, next) = save_chunk(&doc, 0, FileEncoding::Windows1251);
    assert_eq!(next, doc.len());
    let mut expected = b"Hello ".to_vec();
    expected.extend_from_slice(&[0xCF, 0xF0, 0xE8, 0xE2, 0xE5, 0xF2, b'\n']);
    assert_eq!(bytes, expected);
    let (bytes, _) = save_chunk(&doc, 6, FileEncoding::Utf8);
    assert_eq!(bytes, "Привет\n".as_bytes());
}

#[test]
fn save_chunks_do_not_split_characters() {
    let mut bytes = vec![b'a'; INDEX_CHUNK - 1];
    bytes.extend_from_slice("Пx".as_bytes());
    let opened = open_document(Arc::new(bytes), PathBuf::from("d.txt"));
    let doc = opened.document;
    let (first, next) = save_chunk(&doc, 0, FileEncoding::Utf16Le);
    assert_eq!(next, INDEX_CHUNK - 1);
    assert_eq!(first.len(), 2 * (INDEX_CHUNK - 1));
    let (second, end) = save_chunk(&doc, next, FileEncoding::Utf16Le);
    assert_eq!(end, doc.len());
    assert_eq!(second, vec![0x1F, 0x04, b'x', 0]);
}

#[test]
fn byte_order_marks() {
    assert_eq!(bom_bytes(FileEncoding::Utf8Bom), vec![0xEF, 0xBB, 0xBF]);
    assert_eq!(bom_bytes(FileEncoding::Utf16Le), vec![0xFF, 0xFE]);
    assert_eq!(bom_bytes(FileEncoding::Utf16Be), vec![0xFE, 0xFF]);
    assert!(bom_bytes(FileEncoding::Utf8).is_empty());
    assert!(bom_bytes(FileEncoding::Windows1251).is_empty());
}

#[test]
fn temporary_save_path() {
    assert_eq!(temp_extension(Some("md")), "md.tmp");
    assert_eq!(temp_extension(None), "txt.tmp");
    assert_eq!(temp_save_path("dir/notes.md"), "dir/notes.md.tmp");
    assert_eq!(temp_save_path("README"), "README.txt.tmp");
    assert_eq!(temp_save_path("a.b\\c"), "a.b\\c.tmp");
}

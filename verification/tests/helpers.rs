use kcd_utils::hdr::{bytes_at, find_too_long, push_le_u32, read_le_u32};
use kcd_utils::patch::{link_text, with_backslashes};
use kcd_utils::rename::{encode_label, file_extension, new_path, shared_extension};
use kcd_utils::text::{
    decimal_digits, offset_after_last, offset_of_first, push_from, push_nuls, same_bytes,
    trimmed_len,
};
use kcd_utils::{KcdError, RenamePolicy, VideoBlock};

fn block(path: &[u8]) -> VideoBlock {
    VideoBlock { head: [0; 16], filepath: path.to_vec(), tail: [0; 20] }
}

#[test]
fn decimal_digits_are_exact() {
    assert_eq!(decimal_digits(0), b"0".to_vec());
    assert_eq!(decimal_digits(7), b"7".to_vec());
    assert_eq!(decimal_digits(10), b"10".to_vec());
    assert_eq!(decimal_digits(109), b"109".to_vec());
    assert_eq!(decimal_digits(4_294_967_295), b"4294967295".to_vec());
    assert_eq!(decimal_digits(usize::MAX), usize::MAX.to_string().into_bytes());
}

#[test]
fn offsets_in_byte_strings() {
    assert_eq!(trimmed_len(b"ab\0\0"), 2);
    assert_eq!(trimmed_len(b"\0a\0"), 2);
    assert_eq!(trimmed_len(b""), 0);
    assert_eq!(offset_after_last(b"a\\b\\c", b'\\'), 4);
    assert_eq!(offset_after_last(b"abc", b'\\'), 0);
    assert_eq!(offset_after_last(b"abc\\", b'\\'), 4);
    assert_eq!(offset_of_first(b"a\\b\\c", b'\\'), 1);
    assert_eq!(offset_of_first(b"abc", b'\\'), 3);
    assert_eq!(offset_of_first(b"", b'\\'), 0);
    assert!(same_bytes(b"abc", b"abc"));
    assert!(!same_bytes(b"abc", b"abd"));
    assert!(!same_bytes(b"abc", b"ab"));
    assert!(same_bytes(b"", b""));
}

#[test]
fn appending_to_a_buffer() {
    let mut out = vec![1u8];
    push_from(&mut out, b"hello", 2);
    assert_eq!(out, vec![1, b'l', b'l', b'o']);
    push_from(&mut out, b"hello", 5);
    assert_eq!(out.len(), 4);
    push_nuls(&mut out, 3);
    assert_eq!(out, vec![1, b'l', b'l', b'o', 0, 0, 0]);
}

#[test]
fn little_endian_numbers() {
    let data = [9u8, 0x78, 0x56, 0x34, 0x12, 9];
    assert_eq!(read_le_u32(&data, 1), 0x1234_5678);
    assert_eq!(read_le_u32(&[0xFF; 4], 0), u32::MAX);
    let mut out = vec![7u8];
    push_le_u32(&mut out, 0x1234_5678);
    assert_eq!(out, vec![7, 0x78, 0x56, 0x34, 0x12]);
    let mut out = Vec::new();
    push_le_u32(&mut out, 292);
    assert_eq!(out, vec![0x24, 0x01, 0, 0]);
    let taken: [u8; 3] = bytes_at(&data, 2);
    assert_eq!(taken, [0x56, 0x34, 0x12]);
}

#[test]
fn extensions_of_paths() {
    assert_eq!(file_extension(b"dir\\clip.avi"), Some(b"avi".to_vec()));
    assert_eq!(file_extension(b"clip.tar.gz"), Some(b"gz".to_vec()));
    assert_eq!(file_extension(b"dir.d\\clip"), None);
    assert_eq!(file_extension(b"clip."), None);
    assert_eq!(file_extension(b""), None);
    assert_eq!(file_extension(b".avi"), Some(b"avi".to_vec()));
    assert_eq!(shared_extension(&vec![]), b"avi".to_vec());
    assert_eq!(shared_extension(&vec![block(b"a.mp4")]), b"mp4".to_vec());
    assert_eq!(shared_extension(&vec![block(b"a.mp4"), block(b"b.mp4"), block(b"c")]), b"mp4".to_vec());
    assert_eq!(shared_extension(&vec![block(b"a.mp4"), block(b"b.mkv")]), b"avi".to_vec());
}

#[test]
fn new_paths_by_policy() {
    assert_eq!(
        new_path(RenamePolicy::SegmentReplace, b"NEW", b"avi", 5, b"OLD\\sub\\clip.avi"),
        b"NEW\\sub\\clip.avi".to_vec()
    );
    assert_eq!(
        new_path(RenamePolicy::SequentialRegenerate, b"NEW", b"mkv", 9, b"OLD\\sub\\clip.avi"),
        b"NEW\\NEW10.mkv".to_vec()
    );
}

#[test]
fn link_text_and_backslashes() {
    assert_eq!(link_text(b"abc.0001"), b"abc.0001\\abc.0001.hdr".to_vec());
    assert_eq!(link_text(b""), b"\\.hdr".to_vec());
    assert_eq!(with_backslashes(b"/a/b\\c/"), b"\\a\\b\\c\\".to_vec());
    assert_eq!(with_backslashes(b""), Vec::<u8>::new());
}

#[test]
fn the_first_long_path_is_found() {
    assert_eq!(find_too_long(&vec![]), None);
    assert_eq!(find_too_long(&vec![block(&[1; 256]), block(b"")]), None);
    assert_eq!(find_too_long(&vec![block(&[1; 256]), block(&[1; 257]), block(&[1; 300])]), Some(1));
}

#[test]
fn labels_as_bytes() {
    assert_eq!(encode_label(""), Ok(vec![]));
    assert_eq!(encode_label("NEW"), Ok(b"NEW".to_vec()));
    assert_eq!(encode_label("\u{0}\u{7f}\u{80}\u{ff}"), Ok(vec![0, 0x7F, 0x80, 0xFF]));
    assert_eq!(encode_label("\u{100}"), Err(KcdError::NotLatin1));
    assert_eq!(encode_label(&"x".repeat(120)).map(|b| b.len()), Ok(120));
    assert_eq!(encode_label(&"x".repeat(121)), Err(KcdError::NameTooLong));
}

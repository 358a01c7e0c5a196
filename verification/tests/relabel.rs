use kcd_utils::{modify_video_hdr, KCDVideoHDR, KcdError, RenamePolicy, VideoBlock};

fn block(path: &[u8]) -> VideoBlock {
    VideoBlock { head: [7; 16], filepath: path.to_vec(), tail: [9; 20] }
}

fn index(paths: &[&[u8]]) -> KCDVideoHDR {
    KCDVideoHDR {
        header: *b"HDR1",
        count: paths.len() as u32,
        data: paths.iter().map(|p| block(p)).collect(),
    }
}

fn paths(index: &KCDVideoHDR) -> Vec<Vec<u8>> {
    index.data.iter().map(|b| b.filepath.clone()).collect()
}

#[test]
fn segment_replacement_keeps_the_file_name() {
    let mut hdr = index(&[b"OLD\\clip1.avi"]);
    assert_eq!(hdr.rename("NEW", RenamePolicy::SegmentReplace), Ok(()));
    assert_eq!(paths(&hdr), vec![b"NEW\\clip1.avi".to_vec()]);
    assert_eq!(hdr.data[0].head, [7; 16]);
    assert_eq!(hdr.data[0].tail, [9; 20]);
    assert_eq!(hdr.header, *b"HDR1");
    assert_eq!(hdr.count, 1);
}

#[test]
fn segment_replacement_touches_the_top_folder_only() {
    let mut hdr = index(&[b"OLD\\OLD\\OLD1.avi", b"x\\y", b"plain", b"", b"\\lead.avi", b"OLD\\"]);
    assert_eq!(hdr.rename("NEW", RenamePolicy::SegmentReplace), Ok(()));
    assert_eq!(
        paths(&hdr),
        vec![
            b"NEW\\OLD\\OLD1.avi".to_vec(),
            b"NEW\\y".to_vec(),
            b"NEW".to_vec(),
            b"NEW".to_vec(),
            b"NEW\\lead.avi".to_vec(),
            b"NEW\\".to_vec(),
        ]
    );
}

#[test]
fn sequential_regeneration_numbers_the_clips() {
    let mut hdr = index(&[b"OLD\\a.avi", b"OLD\\b.avi", b"OLD\\c.avi"]);
    assert_eq!(hdr.rename("NEW", RenamePolicy::SequentialRegenerate), Ok(()));
    assert_eq!(
        paths(&hdr),
        vec![b"NEW\\NEW1.avi".to_vec(), b"NEW\\NEW2.avi".to_vec(), b"NEW\\NEW3.avi".to_vec()]
    );
}

#[test]
fn sequential_regeneration_counts_in_decimal() {
    let names: Vec<Vec<u8>> = (0..120).map(|i| format!("OLD\\x{i}.mp4").into_bytes()).collect();
    let refs: Vec<&[u8]> = names.iter().map(|n| n.as_slice()).collect();
    let mut hdr = index(&refs);
    assert_eq!(hdr.rename("L", RenamePolicy::SequentialRegenerate), Ok(()));
    for (i, p) in paths(&hdr).iter().enumerate() {
        assert_eq!(p, &format!("L\\L{}.mp4", i + 1).into_bytes());
    }
}

#[test]
fn sequential_regeneration_takes_the_shared_extension() {
    let mut hdr = index(&[b"OLD\\a.mkv", b"OLD\\b.mkv", b"OLD\\c.avi"]);
    assert_eq!(hdr.rename("N", RenamePolicy::SequentialRegenerate), Ok(()));
    assert_eq!(paths(&hdr), vec![b"N\\N1.mkv".to_vec(), b"N\\N2.mkv".to_vec(), b"N\\N3.mkv".to_vec()]);
    let mut single = index(&[b"OLD\\a.b.mov"]);
    assert_eq!(single.rename("N", RenamePolicy::SequentialRegenerate), Ok(()));
    assert_eq!(paths(&single), vec![b"N\\N1.mov".to_vec()]);
}

#[test]
fn sequential_regeneration_falls_back_to_avi() {
    let cases: [&[&[u8]]; 6] = [
        &[b"OLD\\a.mkv", b"OLD\\b.mp4"],
        &[b"OLD\\a", b"OLD\\b.mp4"],
        &[b"OLD\\a.mkv", b"OLD\\b"],
        &[b"OLD\\a."],
        &[b"OLD.x\\a"],
        &[b""],
    ];
    for case in cases {
        let mut hdr = index(case);
        assert_eq!(hdr.rename("N", RenamePolicy::SequentialRegenerate), Ok(()));
        assert_eq!(hdr.data[0].filepath, b"N\\N1.avi".to_vec());
    }
}

#[test]
fn renaming_an_empty_index_changes_nothing() {
    for policy in [RenamePolicy::SegmentReplace, RenamePolicy::SequentialRegenerate] {
        let mut hdr = index(&[]);
        assert_eq!(hdr.rename("NEW", policy), Ok(()));
        assert_eq!(hdr, index(&[]));
    }
}

#[test]
fn a_label_of_more_than_120_bytes_is_refused() {
    for policy in [RenamePolicy::SegmentReplace, RenamePolicy::SequentialRegenerate] {
        let mut hdr = index(&[b"OLD\\clip1.avi"]);
        let label = "a".repeat(121);
        assert_eq!(hdr.rename(&label, policy), Err(KcdError::NameTooLong));
        assert_eq!(hdr, index(&[b"OLD\\clip1.avi"]));
        let label = "a".repeat(120);
        assert_eq!(hdr.rename(&label, policy), Ok(()));
    }
}

#[test]
fn a_label_counts_in_characters() {
    let mut hdr = index(&[b"OLD\\clip1.avi"]);
    let label = "\u{e9}".repeat(61);
    assert_eq!(label.len(), 122);
    assert_eq!(hdr.rename(&label, RenamePolicy::SegmentReplace), Ok(()));
    let mut expected = vec![0xE9u8; 61];
    expected.extend_from_slice(b"\\clip1.avi");
    assert_eq!(hdr.data[0].filepath, expected);
    let label = "\u{e9}".repeat(120);
    assert_eq!(hdr.rename(&label, RenamePolicy::SegmentReplace), Ok(()));
    assert_eq!(hdr.data[0].filepath.len(), 120 + 10);
    let before = hdr.clone();
    let label = "\u{e9}".repeat(121);
    assert_eq!(hdr.rename(&label, RenamePolicy::SegmentReplace), Err(KcdError::NameTooLong));
    assert_eq!(hdr, before);
}

#[test]
fn a_label_is_written_as_latin1() {
    let mut hdr = index(&[b"OLD\\clip1.avi", b"OLD\\clip2.avi"]);
    assert_eq!(hdr.rename("caf\u{e9}\u{ff}\u{80}", RenamePolicy::SegmentReplace), Ok(()));
    assert_eq!(hdr.data[0].filepath, b"caf\xe9\xff\x80\\clip1.avi".to_vec());
    assert_eq!(hdr.rename("\u{a0}", RenamePolicy::SequentialRegenerate), Ok(()));
    assert_eq!(hdr.data[1].filepath, b"\xa0\\\xa02.avi".to_vec());
}

#[test]
fn a_label_outside_latin1_is_refused() {
    for policy in [RenamePolicy::SegmentReplace, RenamePolicy::SequentialRegenerate] {
        for label in ["\u{100}", "abc\u{20ac}", "\u{65e5}\u{672c}", "a\u{1f600}b"] {
            let before = index(&[b"OLD\\clip1.avi"]);
            let mut hdr = before.clone();
            assert_eq!(hdr.rename(label, policy), Err(KcdError::NotLatin1));
            assert_eq!(hdr, before);
        }
    }
    let mut hdr = index(&[b"OLD\\clip1.avi"]);
    let long = "\u{20ac}".repeat(121);
    assert_eq!(hdr.rename(&long, RenamePolicy::SegmentReplace), Err(KcdError::NameTooLong));
    let input = hdr.to_bytes().unwrap();
    assert_eq!(modify_video_hdr(&input, "\u{20ac}", RenamePolicy::SegmentReplace), Err(KcdError::NotLatin1));
    assert_eq!(modify_video_hdr(&input[..5], "\u{20ac}", RenamePolicy::SegmentReplace), Err(KcdError::TruncatedInput));
}

#[test]
fn a_path_that_would_outgrow_its_field_is_refused() {
    let long_name = vec![b'n'; 200];
    let mut second = b"OLD\\".to_vec();
    second.extend_from_slice(&long_name);
    let before = index(&[b"OLD\\clip1.avi", &second, b"OLD\\clip3.avi"]);
    let mut hdr = before.clone();
    let label = "L".repeat(60);
    assert_eq!(hdr.rename(&label, RenamePolicy::SegmentReplace), Err(KcdError::PathTooLong { record: 1 }));
    assert_eq!(hdr, before);
    let label = "L".repeat(55);
    assert_eq!(hdr.rename(&label, RenamePolicy::SegmentReplace), Ok(()));
    assert_eq!(hdr.data[1].filepath.len(), 256);
}

#[test]
fn sequential_paths_that_outgrow_the_field_are_refused() {
    let mut hdr = index(&[b"OLD\\clip1.avi", b"OLD\\clip2.avi"]);
    let label = "L".repeat(120);
    assert_eq!(hdr.rename(&label, RenamePolicy::SequentialRegenerate), Ok(()));
    assert_eq!(hdr.data[0].filepath.len(), 120 + 1 + 120 + 1 + 1 + 3);
    let ext = vec![b'e'; 60];
    let mut p = b"OLD\\clip.".to_vec();
    p.extend_from_slice(&ext);
    let before = index(&[&p, &p, &p]);
    let mut hdr = before.clone();
    let label = "L".repeat(97);
    assert_eq!(hdr.rename(&label, RenamePolicy::SequentialRegenerate), Err(KcdError::PathTooLong { record: 0 }));
    assert_eq!(hdr, before);
    let label = "L".repeat(96);
    assert_eq!(hdr.rename(&label, RenamePolicy::SequentialRegenerate), Ok(()));
}

#[test]
fn rename_bytes_takes_any_bytes() {
    let mut hdr = index(&[b"OLD\\clip1.avi"]);
    assert_eq!(hdr.rename_bytes(&[0xFF, 0x00], RenamePolicy::SegmentReplace), Ok(()));
    assert_eq!(hdr.data[0].filepath, b"\xff\x00\\clip1.avi".to_vec());
}

fn hdr_file(paths: &[&[u8]]) -> Vec<u8> {
    index(paths).to_bytes().unwrap()
}

#[test]
fn modify_video_hdr_relabels_a_file() {
    let input = hdr_file(&[b"OLD\\clip1.avi", b"OLD\\clip2.avi"]);
    let out = modify_video_hdr(&input, "NEW", RenamePolicy::SegmentReplace).unwrap();
    assert_eq!(out, hdr_file(&[b"NEW\\clip1.avi", b"NEW\\clip2.avi"]));
    assert_eq!(out.len(), input.len());
    let out = modify_video_hdr(&input, "NEW", RenamePolicy::SequentialRegenerate).unwrap();
    assert_eq!(out, hdr_file(&[b"NEW\\NEW1.avi", b"NEW\\NEW2.avi"]));
}

#[test]
fn modify_video_hdr_refuses_before_anything_is_written() {
    let mut long = b"OLD\\".to_vec();
    long.extend_from_slice(&[b'n'; 249]);
    let input = hdr_file(&[b"OLD\\clip1.avi", &long]);
    assert_eq!(
        modify_video_hdr(&input, "LABEL78", RenamePolicy::SegmentReplace),
        Err(KcdError::PathTooLong { record: 1 })
    );
    assert_eq!(
        modify_video_hdr(&input, &"x".repeat(121), RenamePolicy::SegmentReplace),
        Err(KcdError::NameTooLong)
    );
    assert!(modify_video_hdr(&input, "LABEL7", RenamePolicy::SegmentReplace).is_ok());
    assert_eq!(modify_video_hdr(&input[..7], "NEW", RenamePolicy::SegmentReplace), Err(KcdError::TruncatedInput));
}

#[test]
fn modify_video_hdr_writes_the_records_it_read() {
    let mut input = hdr_file(&[b"OLD\\clip1.avi", b"OLD\\clip2.avi"]);
    input[4] = 9;
    input.truncate(8 + 292 + 10);
    let out = modify_video_hdr(&input, "NEW", RenamePolicy::SegmentReplace).unwrap();
    assert_eq!(out, hdr_file(&[b"NEW\\clip1.avi"]));
}

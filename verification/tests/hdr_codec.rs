use kcd_utils::{KCDVideoHDR, KcdError, VideoBlock};

fn head(seed: u8) -> [u8; 16] {
    let mut h = [0u8; 16];
    for (i, b) in h.iter_mut().enumerate() {
        *b = seed.wrapping_add(i as u8);
    }
    h
}

fn tail(seed: u8) -> [u8; 20] {
    let mut t = [0u8; 20];
    for (i, b) in t.iter_mut().enumerate() {
        *b = seed.wrapping_mul(3).wrapping_add(i as u8);
    }
    t
}

fn record_bytes(seed: u8, path: &[u8]) -> Vec<u8> {
    let mut out = head(seed).to_vec();
    out.extend_from_slice(path);
    out.resize(16 + 256, 0);
    out.extend_from_slice(&tail(seed));
    out
}

fn index_bytes(count: u32, paths: &[&[u8]]) -> Vec<u8> {
    let mut out = vec![0x4B, 0x56, 0x48, 0x31];
    out.extend_from_slice(&count.to_le_bytes());
    for (i, p) in paths.iter().enumerate() {
        out.extend_from_slice(&record_bytes(i as u8 + 1, p));
    }
    out
}

#[test]
fn read_hdr() {
    let data = index_bytes(2, &[b"16-1_basal\\clip1.avi", b"16-1_basal\\clip2.avi"]);
    let kcd = KCDVideoHDR::from_bytes(&data).unwrap();
    println!("{:?}", kcd);
    assert_eq!(kcd.header, [0x4B, 0x56, 0x48, 0x31]);
    assert_eq!(kcd.count, 2);
    assert_eq!(kcd.data.len(), 2);
    assert_eq!(kcd.data[0].head, head(1));
    assert_eq!(kcd.data[0].filepath, b"16-1_basal\\clip1.avi".to_vec());
    assert_eq!(kcd.data[0].tail, tail(1));
    assert_eq!(kcd.data[1].filepath, b"16-1_basal\\clip2.avi".to_vec());
    assert_eq!(kcd.data[1].tail, tail(2));
}

#[test]
fn write_to_hdr() {
    let original = index_bytes(3, &[b"a\\one.avi", b"a\\two.avi", b"a\\three.avi"]);
    let kcd = KCDVideoHDR::from_bytes(&original).unwrap();
    let kcd_bytes = kcd.to_bytes().unwrap();
    assert_eq!(kcd_bytes, original);
}

#[test]
fn round_trip_keeps_every_byte_value() {
    let mut path = Vec::new();
    for b in 1..=255u8 {
        path.push(b);
    }
    let original = index_bytes(2, &[&path, b""]);
    let kcd = KCDVideoHDR::from_bytes(&original).unwrap();
    assert_eq!(kcd.data[0].filepath, path);
    assert_eq!(kcd.data[1].filepath, Vec::<u8>::new());
    assert_eq!(kcd.to_bytes().unwrap(), original);
}

#[test]
fn round_trip_of_a_full_field() {
    let path = vec![b'x'; 256];
    let original = index_bytes(1, &[&path]);
    let kcd = KCDVideoHDR::from_bytes(&original).unwrap();
    assert_eq!(kcd.data[0].filepath.len(), 256);
    assert_eq!(kcd.to_bytes().unwrap(), original);
}

#[test]
fn round_trip_of_an_empty_index() {
    let original = index_bytes(0, &[]);
    assert_eq!(original.len(), 8);
    let kcd = KCDVideoHDR::from_bytes(&original).unwrap();
    assert_eq!(kcd.count, 0);
    assert!(kcd.data.is_empty());
    assert_eq!(kcd.to_bytes().unwrap(), original);
}

#[test]
fn count_is_little_endian() {
    let mut data = vec![1, 2, 3, 4];
    data.extend_from_slice(&[0x04, 0x03, 0x02, 0x01]);
    let (kcd, dropped) = KCDVideoHDR::from_bytes_lenient(&data).unwrap();
    assert_eq!(kcd.count, 0x0102_0304);
    assert_eq!(kcd.data.len(), 0);
    assert_eq!(dropped, 0x0102_0304);
}

#[test]
fn only_trailing_nuls_are_stripped() {
    let data = index_bytes(1, &[b"\0a\0b\0\0"]);
    let kcd = KCDVideoHDR::from_bytes(&data).unwrap();
    assert_eq!(kcd.data[0].filepath, b"\0a\0b".to_vec());
    assert_eq!(kcd.to_bytes().unwrap(), data);
}

#[test]
fn map_to_string_strips_the_padding() {
    assert_eq!(VideoBlock::map_to_string(b"abc\0\0\0"), b"abc".to_vec());
    assert_eq!(VideoBlock::map_to_string(b"abc"), b"abc".to_vec());
    assert_eq!(VideoBlock::map_to_string(b"\0\0"), Vec::<u8>::new());
    assert_eq!(VideoBlock::map_to_string(b""), Vec::<u8>::new());
    assert_eq!(VideoBlock::map_to_string(b"a\0b\0"), b"a\0b".to_vec());
}

#[test]
fn write_to_string_pads_to_the_field() {
    let mut out = vec![9u8];
    assert_eq!(VideoBlock::write_to_string(&mut out, b"ab"), Ok(()));
    assert_eq!(out.len(), 257);
    assert_eq!(&out[..3], &[9, b'a', b'b']);
    assert!(out[3..].iter().all(|b| *b == 0));
}

#[test]
fn write_to_string_refuses_a_long_text() {
    let mut out = vec![9u8];
    let long = vec![b'a'; 257];
    assert_eq!(VideoBlock::write_to_string(&mut out, &long), Err(KcdError::NameTooLong));
    assert_eq!(out, vec![9u8]);
    let full = vec![b'a'; 256];
    assert_eq!(VideoBlock::write_to_string(&mut out, &full), Ok(()));
    assert_eq!(out.len(), 257);
}

#[test]
fn truncated_preamble_is_refused() {
    for n in 0..8 {
        let data = vec![0u8; n];
        assert_eq!(KCDVideoHDR::from_bytes(&data), Err(KcdError::TruncatedInput));
        assert_eq!(KCDVideoHDR::from_bytes_lenient(&data), Err(KcdError::TruncatedInput));
    }
}

#[test]
fn a_record_cut_short_is_dropped() {
    let mut data = index_bytes(3, &[b"a\\1.avi", b"a\\2.avi", b"a\\3.avi"]);
    data.truncate(8 + 292 * 2 + 100);
    let (kcd, dropped) = KCDVideoHDR::from_bytes_lenient(&data).unwrap();
    assert_eq!(kcd.count, 3);
    assert_eq!(kcd.data.len(), 2);
    assert_eq!(dropped, 1);
    assert_eq!(kcd.data[1].filepath, b"a\\2.avi".to_vec());
    let plain = KCDVideoHDR::from_bytes(&data).unwrap();
    assert_eq!(plain, kcd);
}

#[test]
fn what_follows_the_announced_records_is_left_out() {
    let data = index_bytes(1, &[b"a\\1.avi", b"a\\2.avi"]);
    let (kcd, dropped) = KCDVideoHDR::from_bytes_lenient(&data).unwrap();
    assert_eq!(kcd.count, 1);
    assert_eq!(kcd.data.len(), 1);
    assert_eq!(dropped, 0);
    assert_eq!(kcd.data[0].filepath, b"a\\1.avi".to_vec());
}

#[test]
fn encode_writes_the_number_of_records_held() {
    let mut data = index_bytes(5, &[b"a\\1.avi", b"a\\2.avi"]);
    data.extend_from_slice(&[7u8; 17]);
    let kcd = KCDVideoHDR::from_bytes(&data).unwrap();
    assert_eq!(kcd.count, 5);
    let out = kcd.to_bytes().unwrap();
    assert_eq!(out.len(), 8 + 292 * 2);
    assert_eq!(&out[4..8], &[2, 0, 0, 0]);
    assert_eq!(out, index_bytes(2, &[b"a\\1.avi", b"a\\2.avi"]));
}

#[test]
fn encode_has_fixed_width_records() {
    for n in 0..6usize {
        let paths: Vec<Vec<u8>> = (0..n).map(|i| vec![b'p'; i * 50]).collect();
        let kcd = KCDVideoHDR {
            header: [1, 2, 3, 4],
            count: 99,
            data: paths
                .iter()
                .map(|p| VideoBlock { head: head(3), filepath: p.clone(), tail: tail(4) })
                .collect(),
        };
        let out = kcd.to_bytes().unwrap();
        assert_eq!(out.len(), 8 + 292 * n);
        assert_eq!(u32::from_le_bytes([out[4], out[5], out[6], out[7]]) as usize, n);
        for (i, p) in paths.iter().enumerate() {
            assert_eq!(&out[8 + 292 * i..8 + 292 * (i + 1)], &record_bytes_with(head(3), p, tail(4))[..]);
        }
    }
}

fn record_bytes_with(h: [u8; 16], path: &[u8], t: [u8; 20]) -> Vec<u8> {
    let mut out = h.to_vec();
    out.extend_from_slice(path);
    out.resize(272, 0);
    out.extend_from_slice(&t);
    out
}

#[test]
fn encode_names_the_first_long_path() {
    let block = |n: usize| VideoBlock { head: head(1), filepath: vec![b'a'; n], tail: tail(1) };
    let kcd = KCDVideoHDR { header: [0; 4], count: 4, data: vec![block(256), block(257), block(3), block(300)] };
    assert_eq!(kcd.to_bytes(), Err(KcdError::PathTooLong { record: 1 }));
    let mut out = vec![5u8];
    assert_eq!(
        KCDVideoHDR::try_write_video_block(&mut out, &kcd.data),
        Err(KcdError::PathTooLong { record: 1 })
    );
    assert_eq!(out, vec![5u8]);
}

#[test]
fn block_codec_by_itself() {
    let bytes = record_bytes(7, b"dir\\clip.avi");
    assert_eq!(bytes.len(), 292);
    let block = VideoBlock::from_bytes(&bytes).unwrap();
    assert_eq!(block.head, head(7));
    assert_eq!(block.filepath, b"dir\\clip.avi".to_vec());
    assert_eq!(block.tail, tail(7));
    assert_eq!(block.to_bytes().unwrap(), bytes);
    assert_eq!(VideoBlock::from_bytes(&bytes[..291]), None);
    let mut longer = bytes.clone();
    longer.push(0);
    assert_eq!(VideoBlock::from_bytes(&longer), None);
    let long = VideoBlock { head: head(7), filepath: vec![b'a'; 257], tail: tail(7) };
    assert_eq!(long.to_bytes(), Err(KcdError::NameTooLong));
}

#[test]
fn try_read_video_block_takes_full_runs_only() {
    let mut body = record_bytes(1, b"a");
    body.extend_from_slice(&record_bytes(2, b"b"));
    body.extend_from_slice(&[1u8; 291]);
    let blocks = KCDVideoHDR::try_read_video_block(&body);
    assert_eq!(blocks.len(), 2);
    assert_eq!(blocks[0].filepath, b"a".to_vec());
    assert_eq!(blocks[1].filepath, b"b".to_vec());
    assert!(KCDVideoHDR::try_read_video_block(&body[..291]).is_empty());
}

#[test]
fn try_write_video_block_appends_in_order() {
    let data = vec![
        VideoBlock { head: head(1), filepath: b"a".to_vec(), tail: tail(1) },
        VideoBlock { head: head(2), filepath: b"b".to_vec(), tail: tail(2) },
    ];
    let mut out = vec![0xAA];
    assert_eq!(KCDVideoHDR::try_write_video_block(&mut out, &data), Ok(()));
    let mut expected = vec![0xAA];
    expected.extend_from_slice(&record_bytes(1, b"a"));
    expected.extend_from_slice(&record_bytes(2, b"b"));
    assert_eq!(out, expected);
}

#[test]
fn errors_describe_themselves() {
    assert_eq!(KcdError::InvalidFormat.describe(), "magic number mismatch");
    assert_eq!(KcdError::AmbiguousMarker.describe(), "marker found more than once");
    assert_eq!(KcdError::MarkerNotFound.describe(), "marker not found");
    assert_eq!(KcdError::NameTooLong.describe(), "name too long");
    assert_eq!(KcdError::NotLatin1.describe(), "label is not Latin-1 text");
    assert_eq!(KcdError::PathTooLong { record: 3 }.describe(), "record path exceeds 256 bytes");
    assert_eq!(KcdError::TooManyRecords.describe(), "too many records");
    assert_eq!(KcdError::IoFailure.describe(), "input or output failed");
    assert_eq!(KcdError::TruncatedInput.describe(), "input is truncated");
}

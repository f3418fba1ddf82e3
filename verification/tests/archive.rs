use pixel_shell::archive::{
    build_archive, encode_footer, extract_range, footer_offset, load, magic, parse_footer,
    ArchiveError, PayloadFooter, FOOTER_SIZE,
};

#[test]
fn magic_spells_ps_patch() {
    assert_eq!(&magic(), b"PS_PATCH");
    assert_eq!(FOOTER_SIZE, 44);
}

#[test]
fn footer_fields_of_a_built_archive() {
    let host = vec![1u8; 10];
    let video = vec![2u8; 100];
    let audio = vec![3u8; 50];
    let file = build_archive(&host, &video, &audio, 1920, 1080).unwrap();
    assert_eq!(file.len(), 204);
    let footer = parse_footer(&file).unwrap();
    assert_eq!(footer.video_offset, 10);
    assert_eq!(footer.video_len, 100);
    assert_eq!(footer.audio_offset, 110);
    assert_eq!(footer.audio_len, 50);
    assert_eq!(footer.width, 1920);
    assert_eq!(footer.height, 1080);
    assert_eq!(&footer.magic, b"PS_PATCH");
}

#[test]
fn footer_layout_is_little_endian_without_padding() {
    let footer = PayloadFooter {
        video_offset: 0x0102030405060708,
        video_len: 0x1112131415161718,
        audio_offset: 0x2122232425262728,
        audio_len: 0x3132333435363738,
        width: 0x4142,
        height: 0x5152,
        magic: *b"PS_PATCH",
    };
    let mut out = Vec::new();
    encode_footer(&footer, &mut out);
    assert_eq!(
        out,
        vec![
            0x08, 0x07, 0x06, 0x05, 0x04, 0x03, 0x02, 0x01, //
            0x18, 0x17, 0x16, 0x15, 0x14, 0x13, 0x12, 0x11, //
            0x28, 0x27, 0x26, 0x25, 0x24, 0x23, 0x22, 0x21, //
            0x38, 0x37, 0x36, 0x35, 0x34, 0x33, 0x32, 0x31, //
            0x42, 0x41, 0x52, 0x51, //
            b'P', b'S', b'_', b'P', b'A', b'T', b'C', b'H',
        ]
    );
    let back = parse_footer(&out).unwrap();
    assert_eq!(back.video_offset, 0x0102030405060708);
    assert_eq!(back.video_len, 0x1112131415161718);
    assert_eq!(back.audio_offset, 0x2122232425262728);
    assert_eq!(back.audio_len, 0x3132333435363738);
    assert_eq!(back.width, 0x4142);
    assert_eq!(back.height, 0x5152);
}

#[test]
fn archive_is_host_video_audio_footer() {
    let file = build_archive(&[9, 8], &[7], &[6, 5, 4], 2, 3).unwrap();
    assert_eq!(&file[..6], &[9, 8, 7, 6, 5, 4]);
    assert_eq!(file.len(), 6 + 44);
    assert_eq!(&file[file.len() - 8..], b"PS_PATCH");
}

#[test]
fn built_archive_loads_back() {
    let host: Vec<u8> = (0..200u32).map(|i| (i * 7) as u8).collect();
    let video: Vec<u8> = (0..333u32).map(|i| (i * 13 + 1) as u8).collect();
    let audio: Vec<u8> = (0..77u32).map(|i| (i * 31 + 2) as u8).collect();
    let file = build_archive(&host, &video, &audio, 1280, 720).unwrap();
    let assets = load(&file).unwrap();
    assert_eq!(assets.video_data, video);
    assert_eq!(assets.audio_data, audio);
    assert_eq!(assets.width, 1280);
    assert_eq!(assets.height, 720);
}

#[test]
fn archive_of_empty_parts() {
    let file = build_archive(&[], &[], &[], 0, 0).unwrap();
    assert_eq!(file.len(), 44);
    let assets = load(&file).unwrap();
    assert!(assets.video_data.is_empty());
    assert!(assets.audio_data.is_empty());
}

#[test]
fn file_shorter_than_a_footer_is_refused() {
    assert!(matches!(parse_footer(&[]), Err(ArchiveError::TooShort)));
    assert!(matches!(parse_footer(&[0u8; 43]), Err(ArchiveError::TooShort)));
    assert!(matches!(parse_footer(b"PS_PATCH"), Err(ArchiveError::TooShort)));
    assert!(matches!(load(&[0u8; 10]), Err(ArchiveError::TooShort)));
}

#[test]
fn file_without_magic_is_refused() {
    assert!(matches!(parse_footer(&[0u8; 44]), Err(ArchiveError::BadMagic)));
    let mut file = build_archive(&[1, 2, 3], &[4], &[5], 1, 1).unwrap();
    let last = file.len() - 1;
    file[last] = b'X';
    assert!(matches!(parse_footer(&file), Err(ArchiveError::BadMagic)));
    assert!(matches!(load(&file), Err(ArchiveError::BadMagic)));
}

#[test]
fn magic_must_be_the_last_eight_bytes() {
    let mut file = build_archive(&[1, 2, 3], &[4], &[5], 1, 1).unwrap();
    file.push(0);
    assert!(matches!(parse_footer(&file), Err(ArchiveError::BadMagic)));
    let mut first_wrong = build_archive(&[1, 2, 3], &[4], &[5], 1, 1).unwrap();
    let at = first_wrong.len() - 8;
    first_wrong[at] = b'p';
    assert!(matches!(parse_footer(&first_wrong), Err(ArchiveError::BadMagic)));
}

#[test]
fn footer_is_read_from_any_tail_that_holds_it() {
    let file = build_archive(&[1u8; 500], &[2u8; 20], &[3u8; 30], 640, 480).unwrap();
    let tail = &file[file.len() - 44..];
    let footer = parse_footer(tail).unwrap();
    assert_eq!(footer.video_offset, 500);
    assert_eq!(footer.audio_offset, 520);
}

#[test]
fn footer_that_points_outside_the_file_is_refused() {
    let footer = PayloadFooter {
        video_offset: 0,
        video_len: 45,
        audio_offset: 0,
        audio_len: 0,
        width: 1,
        height: 1,
        magic: *b"PS_PATCH",
    };
    let mut file = Vec::new();
    encode_footer(&footer, &mut file);
    assert!(matches!(load(&file), Err(ArchiveError::OutOfRange)));
    let far = PayloadFooter { video_len: 0, audio_offset: u64::MAX, audio_len: 2, ..footer };
    let mut file = Vec::new();
    encode_footer(&far, &mut file);
    assert!(matches!(load(&file), Err(ArchiveError::OutOfRange)));
}

#[test]
fn ranges_are_copied_exactly() {
    let file = [10u8, 11, 12, 13, 14];
    assert_eq!(extract_range(&file, 1, 3), Some(vec![11, 12, 13]));
    assert_eq!(extract_range(&file, 0, 5), Some(vec![10, 11, 12, 13, 14]));
    assert_eq!(extract_range(&file, 5, 0), Some(vec![]));
    assert_eq!(extract_range(&file, 5, 1), None);
    assert_eq!(extract_range(&file, 6, 0), None);
    assert_eq!(extract_range(&file, 2, u64::MAX), None);
}

#[test]
fn footer_starts_44_bytes_before_the_end() {
    assert_eq!(footer_offset(204), Some(160));
    assert_eq!(footer_offset(44), Some(0));
    assert_eq!(footer_offset(43), None);
    assert_eq!(footer_offset(0), None);
}

use metadata_scrub::error::ScrubError;
use metadata_scrub::scrub::mp4::{
    is_xmp_uuid, parse_boxes, scrub, scrub_container, zero_creation_times, MAX_DEPTH,
};

const XMP_UUID: [u8; 16] = [
    0xBE, 0x7A, 0xCF, 0xCB, 0x97, 0xA9, 0x42, 0xE8, 0x9C, 0x71, 0x99, 0x94, 0x91, 0xE3, 0xAF, 0xAC,
];

fn box32(typ: &[u8; 4], body: &[u8]) -> Vec<u8> {
    let mut v = ((body.len() + 8) as u32).to_be_bytes().to_vec();
    v.extend_from_slice(typ);
    v.extend_from_slice(body);
    v
}

fn box64(typ: &[u8; 4], body: &[u8]) -> Vec<u8> {
    let mut v = 1u32.to_be_bytes().to_vec();
    v.extend_from_slice(typ);
    v.extend_from_slice(&((body.len() + 16) as u64).to_be_bytes());
    v.extend_from_slice(body);
    v
}

fn fixture() -> Vec<u8> {
    let udta_gps = box32(b"udta", &box32(b"\xA9xyz", &[0xDE, 0xAD]));
    let tkhd = box32(b"tkhd", &[0, 0, 0, 0, 0xDE, 0xAD, 0xBE, 0xEF, 1, 2, 3, 4]);
    let trak = box32(b"trak", &[tkhd.as_slice(), udta_gps.as_slice()].concat());
    let ilst = box32(b"ilst", &box32(b"data", &[1, 2, 3]));
    let meta = box32(
        b"meta",
        [0, 0, 0, 0].iter().copied().chain(box32(b"hdlr", &[9])).collect::<Vec<u8>>().as_slice(),
    );
    let moov = box32(
        b"moov",
        &[box32(b"mvhd", &[0; 8]).as_slice(), trak.as_slice(), meta.as_slice(), box32(b"keys", &[7]).as_slice(), ilst.as_slice()].concat(),
    );
    let mut xmp = box32(b"uuid", &XMP_UUID);
    xmp.extend_from_slice(b"<xmp/>");
    [box32(b"ftyp", b"isom"), moov, box32(b"free", &[0xAA]), box32(b"mdat", &[1, 2, 3, 4, 5]), xmp].concat()
}

#[test]
fn strips_metadata_boxes_keeps_media() {
    let input = fixture();
    let cleaned = scrub(&input).unwrap().unwrap();
    assert!(!cleaned.windows(4).any(|w| w == b"udta"));
    assert!(!cleaned.windows(4).any(|w| w == b"keys"));
    assert!(!cleaned.windows(4).any(|w| w == b"ilst"));
    assert!(!cleaned.windows(4).any(|w| w == b"\xA9xyz"));
    assert!(cleaned.windows(4).any(|w| w == b"ftyp"));
    assert!(cleaned.windows(4).any(|w| w == b"mvhd"));
    assert!(cleaned.windows(4).any(|w| w == b"tkhd"));
    assert!(cleaned.windows(4).any(|w| w == b"mdat"));
    let mdat_pos = cleaned.windows(4).position(|w| w == b"mdat").unwrap();
    assert_eq!(&cleaned[mdat_pos + 4..mdat_pos + 9], &[1, 2, 3, 4, 5]);

    let tkhd_pos = cleaned.windows(4).position(|w| w == b"tkhd").unwrap();
    assert_eq!(&cleaned[tkhd_pos + 8..tkhd_pos + 16], &[0; 8]);
    assert_eq!(&cleaned[tkhd_pos - 4..tkhd_pos], &[0, 0, 0, 20]);

    let mut offset = 0usize;
    while offset < cleaned.len() {
        let size = u32::from_be_bytes(cleaned[offset..offset + 4].try_into().unwrap()) as usize;
        assert!(size >= 8 && offset + size <= cleaned.len(), "box sizes corrupted at {offset}");
        offset += size;
    }
    assert_eq!(offset, cleaned.len());
}

#[test]
fn clean_mp4_returns_none() {
    let input = [box32(b"ftyp", b"isom"), box32(b"mdat", &[1])].concat();
    assert!(scrub(&input).unwrap().is_none());
}

#[test]
fn mp4_is_exactly_its_kept_boxes() {
    let tkhd = box32(b"tkhd", &[0; 12]);
    let moov = box32(b"moov", &[box32(b"mvhd", &[0; 8]), box32(b"trak", &tkhd)].concat());
    let expected = [
        box32(b"ftyp", b"isom"),
        moov,
        box32(b"free", &[0xAA]),
        box32(b"mdat", &[1, 2, 3, 4, 5]),
    ]
    .concat();
    assert_eq!(scrub(&fixture()).unwrap().unwrap(), expected);
}

#[test]
fn mp4_scrub_is_done_at_once() {
    let cleaned = scrub(&fixture()).unwrap().unwrap();
    assert!(cleaned.len() < fixture().len());
    assert_eq!(scrub(&cleaned), Ok(None));
}

#[test]
fn mp4_of_xmp_alone_is_empty_afterwards() {
    let cleaned = scrub(&box32(b"uuid", &XMP_UUID)).unwrap().unwrap();
    assert!(cleaned.is_empty());
    assert_eq!(scrub(&cleaned), Err(ScrubError::NotMp4));
}

#[test]
fn mp4_looks_into_plain_containers_only() {
    let mdhd = box32(b"mdhd", &[0, 0, 0, 0, 1, 1, 1, 1, 2, 2, 2, 2]);
    let zeroed = box32(b"mdhd", &[0; 12]);
    let deep = |inner: &[u8]| {
        let stbl = box32(b"stbl", inner);
        let minf = box32(b"minf", &stbl);
        let mdia = box32(b"mdia", &minf);
        box32(b"moov", &box32(b"trak", &mdia))
    };
    assert_eq!(scrub(&deep(&mdhd)).unwrap().unwrap(), deep(&zeroed));
    let other = box32(b"moov", &box32(b"dinf", &mdhd));
    assert_eq!(scrub(&other), Ok(None));
    let kept = box32(b"moov", &box32(b"mdia", &box32(b"udta", b"")));
    assert_eq!(scrub(&kept), Ok(None));
    let keys = box32(b"moov", &box32(b"trak", &box32(b"keys", b"")));
    assert_eq!(scrub(&keys), Ok(None));
}

#[test]
fn mp4_times_are_zeroed_by_version() {
    let v0 = box32(b"mvhd", &[0, 9, 9, 9, 1, 2, 3, 4, 5, 6, 7, 8, 0xEE]);
    assert_eq!(
        zero_creation_times(&v0).unwrap(),
        box32(b"mvhd", &[0, 9, 9, 9, 0, 0, 0, 0, 0, 0, 0, 0, 0xEE])
    );
    let mut body = vec![1, 9, 9, 9];
    body.extend_from_slice(&[3; 16]);
    body.push(0xEE);
    let mut expected = vec![1, 9, 9, 9];
    expected.extend_from_slice(&[0; 16]);
    expected.push(0xEE);
    assert_eq!(zero_creation_times(&box32(b"mvhd", &body)).unwrap(), box32(b"mvhd", &expected));
    assert_eq!(zero_creation_times(&box32(b"mvhd", &[0; 12])), None);
    assert_eq!(zero_creation_times(&box32(b"mvhd", &[2, 0, 0, 0, 1, 1, 1, 1, 1, 1, 1, 1])), None);
    assert_eq!(zero_creation_times(&box32(b"mvhd", &[0, 0, 0, 0, 1])), None);
    assert_eq!(zero_creation_times(&box32(b"mvhd", &[1, 0, 0, 0, 1, 1, 1, 1, 1, 1, 1, 1])), None);
    assert_eq!(zero_creation_times(&[]), None);
}

#[test]
fn mp4_box_sizes() {
    let mut data = box32(b"free", &[1, 2]);
    data.extend(box64(b"wide", &[3]));
    data.extend_from_slice(&[0, 0, 0, 0]);
    data.extend_from_slice(b"mdat");
    data.extend_from_slice(&[4, 4, 4]);
    let found = parse_boxes(&data, 0, data.len(), 0).unwrap();
    let places: Vec<(usize, usize, usize, usize)> =
        found.iter().map(|b| (b.start, b.body_start, b.end, b.header_len())).collect();
    assert_eq!(places, vec![(0, 8, 10, 8), (10, 26, 27, 16), (27, 35, 38, 8)]);
    assert!(found[1].largesize && !found[2].largesize);
}

#[test]
fn mp4_open_ended_movie_gets_a_size() {
    let mut input = box32(b"ftyp", b"isom");
    input.extend_from_slice(&[0, 0, 0, 0]);
    input.extend_from_slice(b"moov");
    input.extend(box32(b"free", &[1]));
    input.extend(box32(b"udta", &[2]));
    let expected = [box32(b"ftyp", b"isom"), box32(b"moov", &box32(b"free", &[1]))].concat();
    assert_eq!(scrub(&input).unwrap().unwrap(), expected);
}

#[test]
fn mp4_container_with_a_64_bit_size_declares_its_new_length() {
    let inner = [box32(b"free", &[1, 2, 3, 4]), box32(b"udta", &[2])].concat();
    let input = box64(b"moov", &inner);
    let found = parse_boxes(&input, 0, input.len(), 0).unwrap();
    let new = scrub_container(&input, &found[0]).unwrap().unwrap();
    let mut expected = 20u32.to_be_bytes().to_vec();
    expected.extend_from_slice(b"moov");
    expected.extend(box32(b"free", &[1, 2, 3, 4]));
    assert_eq!(new, expected);
    let input = box64(b"moov", &box32(b"udta", b""));
    assert_eq!(scrub(&input).unwrap().unwrap(), box32(b"moov", b""));
}

#[test]
fn mp4_sizes_tile_the_file_after_64_bit_boxes() {
    let mvhd = box64(b"mvhd", &[0, 0, 0, 0, 1, 1, 1, 1, 2, 2, 2, 2]);
    let trak = box64(b"trak", &box64(b"udta", &[9]));
    let moov = box64(b"moov", &[mvhd, trak].concat());
    let mdat = box64(b"mdat", &[1, 2, 3]);
    let input = [box32(b"ftyp", b"isom"), moov, mdat.clone()].concat();
    let cleaned = scrub(&input).unwrap().unwrap();
    let expected = [
        box32(b"ftyp", b"isom"),
        box32(b"moov", &[box64(b"mvhd", &[0; 12]), box32(b"trak", b"")].concat()),
        mdat,
    ]
    .concat();
    assert_eq!(cleaned, expected);
    let found = parse_boxes(&cleaned, 0, cleaned.len(), 0).unwrap();
    assert_eq!(found.iter().map(|b| b.end - b.start).sum::<usize>(), cleaned.len());
    assert_eq!(scrub(&cleaned), Ok(None));
}

#[test]
fn mp4_times_follow_a_64_bit_size() {
    let v0 = box64(b"mvhd", &[0, 9, 9, 9, 1, 2, 3, 4, 5, 6, 7, 8, 0xEE]);
    assert_eq!(
        zero_creation_times(&v0).unwrap(),
        box64(b"mvhd", &[0, 9, 9, 9, 0, 0, 0, 0, 0, 0, 0, 0, 0xEE])
    );
    let mut body = vec![1, 9, 9, 9];
    body.extend_from_slice(&[3; 16]);
    let mut expected = vec![1, 9, 9, 9];
    expected.extend_from_slice(&[0; 16]);
    assert_eq!(zero_creation_times(&box64(b"tkhd", &body)).unwrap(), box64(b"tkhd", &expected));
    assert_eq!(zero_creation_times(&box64(b"tkhd", &[0; 12])), None);
    assert_eq!(zero_creation_times(&box64(b"tkhd", &[0, 0, 0, 0, 1, 1, 1])), None);
    assert_eq!(zero_creation_times(&box64(b"tkhd", &body[..19])), None);
}

#[test]
fn mp4_xmp_is_told_by_its_user_type() {
    let input = [box32(b"uuid", &XMP_UUID), box32(b"uuid", &[7; 16])].concat();
    let found = parse_boxes(&input, 0, input.len(), 0).unwrap();
    assert!(is_xmp_uuid(&input, &found[0]));
    assert!(!is_xmp_uuid(&input, &found[1]));
    assert_eq!(scrub(&input).unwrap().unwrap(), box32(b"uuid", &[7; 16]));
}

#[test]
fn mp4_errors() {
    assert_eq!(scrub(&[0; 7]), Err(ScrubError::NotMp4));
    let data = box32(b"free", &[]);
    assert!(matches!(
        parse_boxes(&data, 0, data.len(), MAX_DEPTH + 1),
        Err(ScrubError::Mp4TooDeep)
    ));
    assert!(parse_boxes(&data, 0, data.len(), MAX_DEPTH).is_ok());
    assert_eq!(scrub(b"\0\0\0\x01free\0\0\0\0"), Err(ScrubError::Mp4TruncatedLargesize));
    assert_eq!(scrub(b"\0\0\0\x07free"), Err(ScrubError::Mp4BoxTooSmall));
    assert_eq!(scrub(b"\0\0\0\x01free\0\0\0\0\0\0\0\x0F"), Err(ScrubError::Mp4BoxTooSmall));
    assert_eq!(scrub(b"\0\0\0\x09free"), Err(ScrubError::Mp4BoxPastEnd));
    let mut far = box32(b"free", &[]);
    far.extend_from_slice(b"\0\0\0\x01free\xFF\xFF\xFF\xFF\xFF\xFF\xFF\xFF");
    assert_eq!(scrub(&far), Err(ScrubError::Mp4BoxOverflow));
    let inner = box32(b"moov", b"\0\0\0\x09udta");
    assert_eq!(scrub(&inner), Err(ScrubError::Mp4BoxPastEnd));
}

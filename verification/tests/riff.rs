use metadata_scrub::error::ScrubError;
use metadata_scrub::scrub::edit::Edit;
use metadata_scrub::scrub::riff::{parse_chunks, scrub_avi, scrub_avi_chunk, scrub_webp};

const EXIF_MASK: u8 = 0x08;
const XMP_MASK: u8 = 0x04;

fn riff(form: &[u8; 4], payload: &[u8]) -> Vec<u8> {
    let mut v = b"RIFF".to_vec();
    v.extend_from_slice(&((payload.len() + 4) as u32).to_le_bytes());
    v.extend_from_slice(form);
    v.extend_from_slice(payload);
    v
}

fn chunk(fourcc: &[u8; 4], data: &[u8]) -> Vec<u8> {
    let mut v = fourcc.to_vec();
    v.extend_from_slice(&(data.len() as u32).to_le_bytes());
    v.extend_from_slice(data);
    if data.len() % 2 == 1 {
        v.push(0);
    }
    v
}

fn list(list_type: &[u8; 4], payload: &[u8]) -> Vec<u8> {
    let mut data = list_type.to_vec();
    data.extend_from_slice(payload);
    chunk(b"LIST", &data)
}

#[test]
fn webp_strips_exif_xmp_and_updates_vp8x_flags() {
    let mut vp8x = vec![0x10, 0x00, 0x00, 0x00, 0x0A, 0x00, 0x00, 0x00, 0x0A, 0x00];
    vp8x[0] |= EXIF_MASK | XMP_MASK;
    let mut payload = chunk(b"VP8X", &vp8x);
    payload.extend(chunk(b"VP8 ", &[1, 2, 3]));
    payload.extend(chunk(b"EXIF", &[0xAA]));
    payload.extend(chunk(b"XMP ", b"<x/>"));
    let input = riff(b"WEBP", &payload);

    let cleaned = scrub_webp(&input).unwrap().unwrap();
    assert!(!cleaned.windows(4).any(|w| w == b"EXIF"));
    assert!(!cleaned.windows(4).any(|w| w == b"XMP "));
    assert!(cleaned.windows(4).any(|w| w == b"VP8 "));
    let vp8x_pos = cleaned.windows(4).position(|w| w == b"VP8X").unwrap();
    assert_eq!(cleaned[vp8x_pos + 8] & (EXIF_MASK | XMP_MASK), 0);
    let declared = u32::from_le_bytes(cleaned[4..8].try_into().unwrap());
    assert_eq!(declared as usize, cleaned.len() - 8);
}

#[test]
fn webp_clean_returns_none() {
    let input = riff(b"WEBP", &chunk(b"VP8 ", &[1, 2, 3]));
    assert!(scrub_webp(&input).unwrap().is_none());
}

#[test]
fn avi_strips_nested_info_list() {
    let info = list(b"INFO", b"ISFTlib");
    let strl = list(b"strl", &chunk(b"strh", &[1, 2]));
    let mut hdrl_payload = info;
    hdrl_payload.extend(&strl);
    let hdrl = list(b"hdrl", &hdrl_payload);
    let movi = list(b"movi", &chunk(b"00db", &[9, 9]));

    let mut payload = hdrl;
    payload.extend(&movi);
    payload.extend(chunk(b"IDIT", b"Wed Aug 29"));
    let input = riff(b"AVI ", &payload);

    let cleaned = scrub_avi(&input).unwrap().unwrap();
    assert!(!cleaned.windows(4).any(|w| w == b"INFO"));
    assert!(!cleaned.windows(4).any(|w| w == b"IDIT"));
    assert!(cleaned.windows(4).any(|w| w == b"movi"));
    assert!(cleaned.windows(4).any(|w| w == b"strl"));
    let declared = u32::from_le_bytes(cleaned[4..8].try_into().unwrap());
    assert_eq!(declared as usize, cleaned.len() - 8);
}

#[test]
fn avi_clean_returns_none() {
    let input = riff(b"AVI ", &chunk(b"JUNK", &[1]));
    assert!(scrub_avi(&input).unwrap().is_none());
}

#[test]
fn webp_is_exactly_its_kept_chunks() {
    let mut payload = chunk(b"VP8X", &[0x3C, 0, 0, 0]);
    payload.extend(chunk(b"EXIF", &[0xAA]));
    payload.extend(chunk(b"VP8 ", &[1, 2, 3]));
    payload.extend_from_slice(&[7, 7, 7]);
    let input = riff(b"WEBP", &payload);
    let mut expected = chunk(b"VP8X", &[0x30, 0, 0, 0]);
    expected.extend(chunk(b"VP8 ", &[1, 2, 3]));
    assert_eq!(scrub_webp(&input).unwrap().unwrap(), riff(b"WEBP", &expected));
}

#[test]
fn webp_scrub_is_done_at_once() {
    let mut payload = chunk(b"VP8X", &[0x0C, 0, 0, 0]);
    payload.extend(chunk(b"XMP ", b"<x/>"));
    let input = riff(b"WEBP", &payload);
    let cleaned = scrub_webp(&input).unwrap().unwrap();
    assert!(cleaned.len() < input.len());
    assert_eq!(scrub_webp(&cleaned), Ok(None));
}

#[test]
fn webp_flags_alone_are_no_metadata() {
    let input = riff(b"WEBP", &chunk(b"VP8X", &[0x0C, 0, 0, 0]));
    assert_eq!(scrub_webp(&input), Ok(None));
}

#[test]
fn avi_is_exactly_its_kept_chunks() {
    let strl = list(b"strl", &chunk(b"strh", &[1, 2]));
    let mut hdrl = list(b"INFO", &chunk(b"ISFT", b"lib"));
    hdrl.extend(&strl);
    let mut payload = list(b"hdrl", &hdrl);
    payload.extend(list(b"movi", &chunk(b"IDIT", &[9])));
    payload.extend(chunk(b"IDIT", b"Wed Aug 29"));
    let input = riff(b"AVI ", &payload);
    let mut expected = list(b"hdrl", &strl);
    expected.extend(list(b"movi", &chunk(b"IDIT", &[9])));
    assert_eq!(scrub_avi(&input).unwrap().unwrap(), riff(b"AVI ", &expected));
}

#[test]
fn avi_drops_exif_and_xmp_chunks() {
    let mut inner = chunk(b"EXIF", &[1]);
    inner.extend(chunk(b"avih", &[2, 2]));
    let mut payload = list(b"hdrl", &inner);
    payload.extend(chunk(b"XMP ", b"<x/>"));
    let input = riff(b"AVI ", &payload);
    let expected = riff(b"AVI ", &list(b"hdrl", &chunk(b"avih", &[2, 2])));
    assert_eq!(scrub_avi(&input).unwrap().unwrap(), expected);
}

#[test]
fn avi_scrub_is_done_at_once() {
    let mut inner = list(b"INFO", b"");
    inner.extend(list(b"strl", &chunk(b"IDIT", b"2020")));
    let input = riff(b"AVI ", &list(b"hdrl", &inner));
    let cleaned = scrub_avi(&input).unwrap().unwrap();
    assert!(cleaned.len() < input.len());
    assert_eq!(scrub_avi(&cleaned), Ok(None));
}

#[test]
fn avi_chunk_edits() {
    assert!(matches!(scrub_avi_chunk(&chunk(b"IDIT", b"2020")), Ok(Edit::Drop)));
    assert!(matches!(scrub_avi_chunk(&list(b"INFO", b"")), Ok(Edit::Drop)));
    assert!(matches!(scrub_avi_chunk(&chunk(b"LIST", b"INF")), Ok(Edit::Keep)));
    assert!(matches!(scrub_avi_chunk(&list(b"movi", &chunk(b"IDIT", &[1]))), Ok(Edit::Keep)));
    let edit = scrub_avi_chunk(&list(b"odml", &chunk(b"IDIT", b"2020")));
    assert!(matches!(edit, Ok(Edit::Replace(new)) if new == list(b"odml", b"")));
    assert!(matches!(
        scrub_avi_chunk(&list(b"odml", b"JUNK\x09\0\0\0")),
        Err(ScrubError::RiffChunkPastEnd)
    ));
}

#[test]
fn riff_chunks_take_their_padding() {
    let mut data = chunk(b"abcd", &[1]);
    data.extend(chunk(b"efgh", &[2, 2]));
    data.extend_from_slice(&[0; 7]);
    let found = parse_chunks(&data).unwrap();
    let places: Vec<(usize, usize)> = found.iter().map(|c| (c.start, c.end)).collect();
    assert_eq!(places, vec![(0, 10), (10, 20)]);
    assert_eq!(found[1].fourcc, u32::from_be_bytes(*b"efgh"));
}

#[test]
fn riff_errors() {
    assert_eq!(scrub_webp(b"RIFF\0\0\0\0WEB"), Err(ScrubError::NotWebp));
    assert_eq!(scrub_webp(&riff(b"AVI ", b"")), Err(ScrubError::NotWebp));
    assert_eq!(scrub_avi(&riff(b"WEBP", b"")), Err(ScrubError::NotAvi));
    assert_eq!(scrub_avi(b"RIFX\0\0\0\0AVI "), Err(ScrubError::NotAvi));
    let short = riff(b"WEBP", b"VP8 \x03\0\0\0abc");
    assert_eq!(scrub_webp(&short), Err(ScrubError::RiffChunkPastEnd));
    assert_eq!(scrub_avi(&riff(b"AVI ", b"JUNK\xFF\xFF\xFF\xFF")), Err(ScrubError::RiffChunkPastEnd));
}

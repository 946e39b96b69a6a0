use metadata_scrub::error::ScrubError;
use metadata_scrub::scrub::jpeg::{read_u16, scrub, APP1, APP13, COM, EOI, SOI, SOS};

const EXIF_ID: &[u8] = b"Exif\0\0";

fn seg(marker: u8, payload: &[u8]) -> Vec<u8> {
    let mut v = vec![0xFF, marker];
    v.extend_from_slice(&((payload.len() + 2) as u16).to_be_bytes());
    v.extend_from_slice(payload);
    v
}

fn fixture() -> Vec<u8> {
    let mut v = vec![0xFF, SOI];
    v.extend_from_slice(&seg(APP1, EXIF_ID)); // exif
    v.extend_from_slice(&seg(APP1, b"http://ns.adobe.com/xap/1.0/\0<xmp/>")); // xmp
    v.extend_from_slice(&seg(0xE2, b"ICC_PROFILE\0.....")); // icc: keep
    v.extend_from_slice(&seg(COM, b"made by a camera"));
    v.extend_from_slice(&seg(0xDB, &[1, 2, 3])); // dqt: keep
    v.push(0xFF);
    v.push(SOS);
    v.extend_from_slice(&[0xAB, 0xCD, 0x11, 0x22, 0xFF, 0xD9]);
    v
}

fn jpeg(parts: &[Vec<u8>]) -> Vec<u8> {
    let mut v = vec![0xFF, SOI];
    for part in parts {
        v.extend_from_slice(part);
    }
    v
}

#[test]
fn strips_exif_xmp_comments_keeps_icc_and_scan() {
    let input = fixture();
    let cleaned = scrub(&input).unwrap().unwrap();
    assert!(!cleaned.windows(2).any(|w| w == [0xFF, APP1]));
    assert!(!cleaned.windows(2).any(|w| w == [0xFF, COM]));
    assert!(cleaned.windows(11).any(|w| w == b"ICC_PROFILE".as_slice()));
    let scan_start = input.windows(2).rposition(|w| w == [0xFF, SOS]).unwrap();
    let cleaned_scan_start = cleaned.windows(2).rposition(|w| w == [0xFF, SOS]).unwrap();
    assert_eq!(&input[scan_start..], &cleaned[cleaned_scan_start..]);
}

#[test]
fn clean_jpeg_returns_none() {
    let mut v = vec![0xFF, SOI];
    v.extend_from_slice(&seg(0xDB, &[1, 2, 3]));
    v.push(0xFF);
    v.push(SOS);
    v.extend_from_slice(&[1, 2, 3, 0xFF, 0xD9]);
    assert!(scrub(&v).unwrap().is_none());
}

#[test]
fn jpeg_is_exactly_its_kept_segments() {
    let input = fixture();
    let mut expected = vec![0xFF, SOI];
    expected.extend_from_slice(&seg(0xE2, b"ICC_PROFILE\0....."));
    expected.extend_from_slice(&seg(0xDB, &[1, 2, 3]));
    expected.extend_from_slice(&[0xFF, SOS, 0xAB, 0xCD, 0x11, 0x22, 0xFF, 0xD9]);
    assert_eq!(scrub(&input).unwrap().unwrap(), expected);
}

#[test]
fn jpeg_scrub_is_done_at_once() {
    let cleaned = scrub(&fixture()).unwrap().unwrap();
    assert!(cleaned.len() < fixture().len());
    assert_eq!(scrub(&cleaned), Ok(None));
}

#[test]
fn jpeg_of_metadata_alone_is_no_jpeg_afterwards() {
    let input = jpeg(&[seg(COM, b"")]);
    let cleaned = scrub(&input).unwrap().unwrap();
    assert_eq!(cleaned, vec![0xFF, SOI]);
    assert_eq!(scrub(&cleaned), Err(ScrubError::NotJpeg));
}

#[test]
fn jpeg_drops_photoshop_but_no_other_app13() {
    let input = jpeg(&[
        seg(APP13, b"Photoshop 3.0\08BIM"),
        seg(APP13, b"Photoshop 2.5\0"),
        seg(APP1, b"Exif\0"),
        vec![0xFF, EOI],
    ]);
    let expected = jpeg(&[seg(APP13, b"Photoshop 2.5\0"), seg(APP1, b"Exif\0"), vec![0xFF, EOI]]);
    assert_eq!(scrub(&input).unwrap().unwrap(), expected);
}

#[test]
fn jpeg_fill_bytes_go_and_bare_markers_stay() {
    let mut input = jpeg(&[vec![0xFF, 0x01], vec![0xFF, 0xD3]]);
    input.extend_from_slice(&[0xFF, 0xFF, 0xFF]);
    input.extend_from_slice(&seg(0xDB, &[9]));
    input.extend_from_slice(&seg(COM, b"x"));
    let expected = jpeg(&[vec![0xFF, 0x01], vec![0xFF, 0xD3], seg(0xDB, &[9])]);
    assert_eq!(scrub(&input).unwrap().unwrap(), expected);
}

#[test]
fn jpeg_metadata_after_the_scan_starts_is_not_looked_at() {
    let mut input = jpeg(&[vec![0xFF, SOS]]);
    input.extend_from_slice(&seg(COM, b"late"));
    assert_eq!(scrub(&input), Ok(None));
}

#[test]
fn jpeg_errors() {
    assert_eq!(scrub(&[]), Err(ScrubError::NotJpeg));
    assert_eq!(scrub(&[0xFF, SOI, 0xFF]), Err(ScrubError::NotJpeg));
    assert_eq!(scrub(&[0xFF, 0xD7, 0xFF, 0xD9]), Err(ScrubError::NotJpeg));
    assert_eq!(
        scrub(&[0xFF, SOI, 0x12, 0x34]),
        Err(ScrubError::JpegExpectedMarker { offset: 2 })
    );
    assert_eq!(scrub(&[0xFF, SOI, 0xFF, 0xFF]), Err(ScrubError::JpegTruncatedMarker));
    assert_eq!(
        scrub(&[0xFF, SOI, 0xFF, 0x00]),
        Err(ScrubError::JpegInvalidMarker { offset: 3 })
    );
    assert_eq!(scrub(&[0xFF, SOI, 0xFF, 0xDB, 0x00]), Err(ScrubError::JpegTruncated));
    assert_eq!(
        scrub(&[0xFF, SOI, 0xFF, 0xDB, 0x00, 0x01]),
        Err(ScrubError::JpegBadSegmentLength { offset: 4 })
    );
    assert_eq!(
        scrub(&[0xFF, SOI, 0xFF, 0xDB, 0x00, 0x04, 0x00]),
        Err(ScrubError::JpegSegmentPastEnd)
    );
}

#[test]
fn read_u16_reads_two_bytes_or_fails() {
    assert_eq!(read_u16(&[0x12, 0x34, 0x56], 1), Ok(0x3456));
    assert_eq!(read_u16(&[0x12, 0x34], 1), Err(ScrubError::JpegTruncated));
    assert_eq!(read_u16(&[], 0), Err(ScrubError::JpegTruncated));
    assert_eq!(read_u16(&[1, 2], usize::MAX), Err(ScrubError::JpegTruncated));
}

use metadata_scrub::error::ScrubError;
use metadata_scrub::scrub::png::{chunk_should_be_dropped, scrub};

const SIGNATURE: [u8; 8] = [0x89, b'P', b'N', b'G', 0x0D, 0x0A, 0x1A, 0x0A];

fn crc32(data: &[u8]) -> u32 {
    let mut table = [0u32; 256];
    for (i, entry) in table.iter_mut().enumerate() {
        let mut c = i as u32;
        for _ in 0..8 {
            c = if c & 1 != 0 { 0xEDB8_8320 ^ (c >> 1) } else { c >> 1 };
        }
        *entry = c;
    }
    let mut crc = 0xFFFF_FFFFu32;
    for &b in data {
        crc = table[((crc ^ b as u32) & 0xFF) as usize] ^ (crc >> 8);
    }
    crc ^ 0xFFFF_FFFF
}

fn chunk(ctype: &[u8; 4], data: &[u8]) -> Vec<u8> {
    let mut v = (data.len() as u32).to_be_bytes().to_vec();
    v.extend_from_slice(ctype);
    v.extend_from_slice(data);
    let mut crc_input = ctype.to_vec();
    crc_input.extend_from_slice(data);
    v.extend_from_slice(&crc32(&crc_input).to_be_bytes());
    v
}

fn fixture() -> Vec<u8> {
    let mut v = SIGNATURE.to_vec();
    v.extend_from_slice(&chunk(b"IHDR", &[1, 2, 3, 4, 5, 6, 7, 8, 9, 0]));
    v.extend_from_slice(&chunk(b"eXIf", &[0xAA, 0xBB]));
    v.extend_from_slice(&chunk(b"iTXt", b"XML:com.adobe.xmp\0\0\0\0<x/>"));
    v.extend_from_slice(&chunk(b"tEXt", b"Software\0MyApp"));
    v.extend_from_slice(&chunk(b"IDAT", &[0x78, 0x9C]));
    v.extend_from_slice(&chunk(b"IEND", b""));
    v
}

#[test]
fn strips_exif_and_xmp_keeps_other_text() {
    let input = fixture();
    let cleaned = scrub(&input).unwrap().unwrap();
    assert!(!cleaned.windows(4).any(|w| w == b"eXIf"));
    assert!(!cleaned.windows(4).any(|w| w == b"iTXt"));
    assert!(cleaned.windows(4).any(|w| w == b"tEXt"));
    assert!(cleaned.windows(4).any(|w| w == b"IDAT"));
    assert!(cleaned.windows(4).any(|w| w == b"IEND"));
    assert_eq!(&cleaned[..8], &SIGNATURE);
}

#[test]
fn clean_png_returns_none() {
    let mut v = SIGNATURE.to_vec();
    v.extend_from_slice(&chunk(b"IHDR", &[0; 10]));
    v.extend_from_slice(&chunk(b"IDAT", &[1]));
    v.extend_from_slice(&chunk(b"IEND", b""));
    assert!(scrub(&v).unwrap().is_none());
}

#[test]
fn png_is_exactly_its_kept_chunks() {
    let mut expected = SIGNATURE.to_vec();
    expected.extend_from_slice(&chunk(b"IHDR", &[1, 2, 3, 4, 5, 6, 7, 8, 9, 0]));
    expected.extend_from_slice(&chunk(b"tEXt", b"Software\0MyApp"));
    expected.extend_from_slice(&chunk(b"IDAT", &[0x78, 0x9C]));
    expected.extend_from_slice(&chunk(b"IEND", b""));
    assert_eq!(scrub(&fixture()).unwrap().unwrap(), expected);
}

#[test]
fn png_scrub_is_done_at_once() {
    let cleaned = scrub(&fixture()).unwrap().unwrap();
    assert!(cleaned.len() < fixture().len());
    assert_eq!(scrub(&cleaned), Ok(None));
}

#[test]
fn png_of_metadata_alone_has_no_chunks_afterwards() {
    let mut input = SIGNATURE.to_vec();
    input.extend_from_slice(&chunk(b"eXIf", &[1]));
    let cleaned = scrub(&input).unwrap().unwrap();
    assert_eq!(cleaned, SIGNATURE.to_vec());
    assert_eq!(scrub(&cleaned), Err(ScrubError::PngNoChunks));
}

#[test]
fn png_keywords_count_in_any_letter_case() {
    let text = u32::from_be_bytes(*b"tEXt");
    let packed = u32::from_be_bytes(*b"zTXt");
    let other = u32::from_be_bytes(*b"IDAT");
    assert!(chunk_should_be_dropped(text, b"raw PROFILE type EXIF\0x"));
    assert!(chunk_should_be_dropped(packed, b"Raw profile type iptc\0x"));
    assert!(chunk_should_be_dropped(packed, b"Raw profile type photoshop\0"));
    assert!(chunk_should_be_dropped(u32::from_be_bytes(*b"iTXt"), b"xml:COM.adobe.XMP\0"));
    assert!(chunk_should_be_dropped(u32::from_be_bytes(*b"eXIf"), b""));
    assert!(!chunk_should_be_dropped(text, b"Raw profile type exif"));
    assert!(!chunk_should_be_dropped(text, b"Raw profile type exif2\0"));
    assert!(!chunk_should_be_dropped(text, b"Raw profile type\0exif\0"));
    assert!(!chunk_should_be_dropped(text, b"\0"));
    assert!(!chunk_should_be_dropped(text, b"Raw profile type ex\xFFf\0"));
    assert!(!chunk_should_be_dropped(other, b"Raw profile type exif\0"));
}

#[test]
fn png_errors() {
    assert_eq!(scrub(&SIGNATURE[..7]), Err(ScrubError::NotPng));
    assert_eq!(scrub(b"\x89PNG\r\n\x1a\r"), Err(ScrubError::NotPng));
    assert_eq!(scrub(&SIGNATURE), Err(ScrubError::PngNoChunks));
    let mut v = SIGNATURE.to_vec();
    v.extend_from_slice(&[0, 0, 0, 0, b'I', b'D', b'A']);
    assert_eq!(scrub(&v), Err(ScrubError::PngTruncatedHeader));
    let mut v = SIGNATURE.to_vec();
    v.extend_from_slice(&chunk(b"IDAT", &[1, 2]));
    v.pop();
    assert_eq!(scrub(&v), Err(ScrubError::PngChunkPastEnd));
}

use metadata_scrub::error::ScrubError;
use metadata_scrub::scrub::path::FilePath;
use metadata_scrub::scrub::{
    backup_suffix, detect, is_supported, process_file, temp_name, Kind, Options, Outcome, Write,
};

fn path(text: &str) -> FilePath {
    FilePath { components: text.split('/').map(|c| c.as_bytes().to_vec()).collect() }
}

const DIRTY_JPEG: [u8; 10] = [0xFF, 0xD8, 0xFF, 0xFE, 0x00, 0x04, b'h', b'i', 0xFF, 0xD9];
const CLEAN_JPEG: [u8; 4] = [0xFF, 0xD8, 0xFF, 0xD9];

fn options(dry_run: bool, backup: bool) -> Options {
    Options { dry_run, backup }
}

#[test]
fn extensions_count_in_any_letter_case() {
    for name in ["a.jpg", "a.jpeg", "a.png", "a.webp", "a.mp4", "a.m4v", "a.mov", "a.avi"] {
        assert!(is_supported(&path(name)), "{name}");
        assert!(is_supported(&path(&name.to_uppercase())), "{name}");
    }
    for name in ["a.gif", "a", "jpg", "a.jpg.txt", "a."] {
        assert!(!is_supported(&path(name)), "{name}");
    }
}

#[test]
fn extensions_are_what_follows_the_last_dot() {
    let ext = |text: &str| path(text).extension();
    assert_eq!(ext("d/a.b.JPG").as_deref(), Some("JPG"));
    assert_eq!(ext("d/.a.jpg").as_deref(), Some("jpg"));
    assert_eq!(ext("d.x/a"), None);
    assert_eq!(ext("d/.jpg"), None);
    assert_eq!(ext("d/a.").as_deref(), Some(""));
    assert_eq!(ext("d/.."), None);
    assert_eq!(ext("d/...").as_deref(), Some(""));
    assert_eq!(ext("d/."), None);
    assert_eq!(ext("a.b/ü.ñé").as_deref(), Some("ñé"));
    assert_eq!(FilePath { components: vec![] }.extension(), None);
    let odd = FilePath { components: vec![b"\xFF.jp\xFFg".to_vec()] };
    assert_eq!(odd.extension(), None);
    let fine = FilePath { components: vec![b"\xFF.jpg".to_vec()] };
    assert_eq!(fine.extension().as_deref(), Some("jpg"));
}

#[test]
fn formats_are_told_by_content() {
    let p = path("x.TXT");
    assert!(matches!(detect(&[0xFF, 0xD8, 0xFF], &p), Kind::Jpeg));
    assert!(matches!(detect(b"\x89PNG\r\n\x1a\n", &p), Kind::Png));
    assert!(matches!(detect(b"RIFF\0\0\0\0WEBP", &p), Kind::Webp));
    assert!(matches!(detect(b"RIFF\0\0\0\0AVI ", &p), Kind::Avi));
    assert!(matches!(detect(b"\0\0\0\x0Cftypisom", &p), Kind::Mp4));
    assert!(matches!(detect(b"\0\0\0\x0Cmoov\0\0\0\0", &p), Kind::Mp4));
    assert!(matches!(detect(b"\0\0\0\x08wide\0\0\0\0", &p), Kind::Mp4));
    assert!(
        matches!(detect(b"RIFF\0\0\0\0WAVE", &p), Kind::Unknown(r) if r == "unrecognized RIFF container (.txt)")
    );
    assert!(
        matches!(detect(b"\0\0\0\x0Bftypiso", &p), Kind::Unknown(r) if r == "unrecognized format (.txt)")
    );
    assert!(
        matches!(detect(b"", &path("noext")), Kind::Unknown(r) if r == "unrecognized format (.)")
    );
    assert!(matches!(detect(b"\x89PNG\r\n\x1a", &p), Kind::Unknown(_)));
    assert!(matches!(detect(&[0xFF, 0xD8], &p), Kind::Unknown(_)));
}

#[test]
fn scrubbed_in_place_with_or_without_a_backup() {
    for backup in [false, true] {
        let plan =
            process_file(&DIRTY_JPEG, &path("a.jpg"), None, &options(false, backup)).unwrap();
        assert!(matches!(
            plan.outcome,
            Outcome::Scrubbed { before: 10, after: 4, dry_run: false }
        ));
        assert!(
            matches!(plan.write, Write::InPlace { data, backup: b } if data == CLEAN_JPEG && b == backup)
        );
    }
}

#[test]
fn scrubbed_to_an_output_folder() {
    let plan =
        process_file(&DIRTY_JPEG, &path("a.jpg"), Some("out/a.jpg"), &options(false, true)).unwrap();
    assert!(matches!(plan.outcome, Outcome::Scrubbed { before: 10, after: 4, dry_run: false }));
    assert!(matches!(plan.write, Write::Output(data) if data == CLEAN_JPEG));
}

#[test]
fn dry_runs_write_nothing() {
    for dest in [None, Some("out/a.jpg")] {
        let dirty = process_file(&DIRTY_JPEG, &path("a.jpg"), dest, &options(true, true)).unwrap();
        assert!(matches!(dirty.write, Write::Nothing));
        assert!(matches!(dirty.outcome, Outcome::Scrubbed { before: 10, after: 4, dry_run: true }));
        let clean = process_file(&CLEAN_JPEG, &path("a.jpg"), dest, &options(true, true)).unwrap();
        assert!(matches!(clean.write, Write::Nothing));
        assert!(matches!(clean.outcome, Outcome::Clean { copied_to: None }));
    }
}

#[test]
fn clean_files_are_copied_only_to_an_output_folder() {
    let plan = process_file(&CLEAN_JPEG, &path("a.jpg"), None, &options(false, true)).unwrap();
    assert!(matches!(plan.write, Write::Nothing));
    assert!(matches!(plan.outcome, Outcome::Clean { copied_to: None }));
    let plan =
        process_file(&CLEAN_JPEG, &path("a.jpg"), Some("o/a.jpg"), &options(false, false)).unwrap();
    assert!(matches!(plan.write, Write::Copy));
    assert!(matches!(plan.outcome, Outcome::Clean { copied_to: Some(to) } if to == "o/a.jpg"));
}

#[test]
fn unknown_files_are_left_alone() {
    let plan =
        process_file(b"hello", &path("b.JPG"), Some("o/b.JPG"), &options(false, true)).unwrap();
    assert!(matches!(plan.write, Write::Nothing));
    assert!(
        matches!(&plan.outcome, Outcome::Unsupported { reason } if reason == "unrecognized format (.jpg)")
    );
    assert!(plan.outcome.is_unsupported());
}

#[test]
fn scrubber_errors_are_handed_on() {
    let r = process_file(&[0xFF, 0xD8, 0xFF, 0x00], &path("a.jpg"), None, &options(false, false));
    assert!(matches!(r, Err(ScrubError::JpegInvalidMarker { offset: 3 })));
}

#[test]
fn every_format_is_scrubbed_and_then_left_alone() {
    let mut png = b"\x89PNG\r\n\x1a\n".to_vec();
    png.extend_from_slice(b"\0\0\0\0eXIf\0\0\0\0\0\0\0\0IEND\0\0\0\0");
    let webp = b"RIFF\x16\0\0\0WEBPEXIF\x02\0\0\0aaVP8 \0\0\0\0".to_vec();
    let avi = b"RIFF\x16\0\0\0AVI IDIT\x02\0\0\0aaJUNK\0\0\0\0".to_vec();
    let mp4 = b"\0\0\0\x0Cftypisom\0\0\0\x10moov\0\0\0\x08udta".to_vec();
    for data in [DIRTY_JPEG.to_vec(), png, webp, avi, mp4] {
        let plan = process_file(&data, &path("a.any"), None, &options(false, false)).unwrap();
        let Write::InPlace { data: out, .. } = plan.write else { panic!("not scrubbed") };
        assert!(out.len() < data.len());
        let again = process_file(&out, &path("a.any"), None, &options(false, false)).unwrap();
        assert!(matches!(again.write, Write::Nothing));
        assert!(matches!(again.outcome, Outcome::Clean { copied_to: None }));
    }
}

#[test]
fn a_movie_too_short_to_be_told_is_not_looked_at_again() {
    let data = b"\0\0\0\x10moov\0\0\0\x08udta";
    let plan = process_file(data, &path("a.mov"), None, &options(false, false)).unwrap();
    let Write::InPlace { data: out, .. } = plan.write else { panic!("not scrubbed") };
    assert_eq!(out, b"\0\0\0\x08moov");
    let again = process_file(&out, &path("a.mov"), None, &options(false, false)).unwrap();
    assert!(again.outcome.is_unsupported());
}

#[test]
fn dry_run_says_what_a_run_would() {
    let dry = process_file(&DIRTY_JPEG, &path("a.jpg"), None, &options(true, false)).unwrap();
    let wet = process_file(&DIRTY_JPEG, &path("a.jpg"), None, &options(false, false)).unwrap();
    assert_eq!(dry.outcome.label(), "would remove 6 bytes of metadata (dry run)");
    assert_eq!(wet.outcome.label(), "removed 6 bytes of metadata (10 -> 4 bytes)");
}

#[test]
fn labels() {
    let label = |before: u64, after: u64, dry_run: bool| {
        Outcome::Scrubbed { before, after, dry_run }.label()
    };
    assert_eq!(label(1200, 200, false), "removed 1000 bytes of metadata (1200 -> 200 bytes)");
    assert_eq!(label(5, 9, false), "removed 0 bytes of metadata (5 -> 9 bytes)");
    assert_eq!(label(5, 9, true), "would remove 0 bytes of metadata (dry run)");
    assert_eq!(
        label(u64::MAX, 0, true),
        "would remove 18446744073709551615 bytes of metadata (dry run)"
    );
    assert_eq!(Outcome::Clean { copied_to: None }.label(), "no removable metadata found");
    assert_eq!(
        Outcome::Clean { copied_to: Some("out/ä.png".to_string()) }.label(),
        "no metadata found, copied to out/ä.png"
    );
    let unsupported = Outcome::Unsupported { reason: "odd".to_string() };
    assert_eq!(unsupported.label(), "unsupported: odd");
    assert!(unsupported.is_unsupported());
    assert!(!Outcome::Clean { copied_to: None }.is_unsupported());
}

#[test]
fn names_of_copies() {
    assert_eq!(temp_name(Some("a.jpg"), 4107), ".a.jpg.scrub-tmp-4107");
    assert_eq!(temp_name(None, 0), ".file.scrub-tmp-0");
    assert_eq!(backup_suffix(), ".bak");
}

#[test]
fn error_messages() {
    let cases = [
        (ScrubError::NotJpeg, "not a JPEG file"),
        (ScrubError::JpegExpectedMarker { offset: 12 }, "corrupt JPEG: expected marker at offset 12"),
        (ScrubError::JpegTruncatedMarker, "corrupt JPEG: truncated marker"),
        (ScrubError::JpegInvalidMarker { offset: 7 }, "corrupt JPEG: invalid marker at offset 7"),
        (ScrubError::JpegTruncated, "corrupt JPEG: truncated"),
        (
            ScrubError::JpegBadSegmentLength { offset: 100 },
            "corrupt JPEG: bad segment length at offset 100",
        ),
        (ScrubError::JpegSegmentOverflow, "corrupt JPEG: bad segment length"),
        (ScrubError::JpegSegmentPastEnd, "corrupt JPEG: segment extends past end of file"),
        (ScrubError::NotPng, "not a PNG file"),
        (ScrubError::PngTruncatedHeader, "corrupt PNG: truncated chunk header"),
        (ScrubError::PngBadChunkLength, "corrupt PNG: bad chunk length"),
        (ScrubError::PngChunkPastEnd, "corrupt PNG: chunk extends past end of file"),
        (ScrubError::PngNoChunks, "corrupt PNG: no chunks found"),
        (ScrubError::NotWebp, "not a WebP file"),
        (ScrubError::NotAvi, "not an AVI file"),
        (ScrubError::RiffChunkOverflow, "corrupt RIFF: chunk size overflow"),
        (ScrubError::RiffChunkPastEnd, "corrupt RIFF: chunk extends past end of file"),
        (ScrubError::NotMp4, "not an MP4/MOV file"),
        (ScrubError::Mp4TooDeep, "corrupt MP4: nesting too deep"),
        (ScrubError::Mp4TruncatedLargesize, "corrupt MP4: truncated largesize header"),
        (ScrubError::Mp4BoxTooSmall, "corrupt MP4: box smaller than header"),
        (ScrubError::Mp4BoxOverflow, "corrupt MP4: box size overflow"),
        (ScrubError::Mp4BoxPastEnd, "corrupt MP4: box extends past end of file"),
    ];
    for (error, message) in cases {
        assert_eq!(error.message(), message);
    }
}

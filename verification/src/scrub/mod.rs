//! Scrubbing a file: what kind it is, what is left of it without its metadata, and what is to be
//! written where.
pub mod avi_file_laws;
pub mod edit;
pub mod files;
pub mod job;
pub mod jpeg;
pub mod jpeg_file_laws;
pub mod jpeg_laws;
pub mod laws;
pub mod mp4;
pub mod mp4_file_laws;
pub mod mp4_laws;
pub mod path;
pub mod path_laws;
pub mod png;
pub mod png_file_laws;
pub mod png_laws;
pub mod process_laws;
pub mod riff;
pub mod riff_file_laws;
pub mod riff_laws;

use vstd::prelude::*;
use vstd::string::StringExecFns;
use crate::bytes::{be32, read_be32, starts_with};
use crate::error::ScrubError;
use crate::scrub::edit::scrub_view;
use crate::scrub::path::FilePath;
use crate::text::{decimal, lowercase, push_decimal};

pub use crate::scrub::files::{collect_files, Entry, Root};
pub use crate::scrub::job::{run_job, Job, JobAction, JobEvent, JobState, Stats};

verus! {

/// How files are to be scrubbed.
#[derive(Clone, Copy, Debug, Default)]
pub struct Options {
    /// Say what would be done and change no file.
    pub dry_run: bool,
    /// Keep a copy of each file that is scrubbed in place.
    pub backup: bool,
}

/// What was done with a file.
#[derive(Debug)]
pub enum Outcome {
    /// There was metadata. The file had `before` bytes and has `after`; in a dry run it would.
    Scrubbed { before: u64, after: u64, dry_run: bool },
    /// There was no metadata.
    Clean { copied_to: Option<String> },
    /// The file is of no known format.
    Unsupported { reason: String },
}

impl Outcome {
    /// The outcome in words.
    pub open spec fn text(self) -> Seq<char> {
        match self {
            Outcome::Scrubbed { before, after, dry_run } => {
                let saved = if before >= after {
                    (before - after) as nat
                } else {
                    0
                };
                if dry_run {
                    "would remove "@ + decimal(saved) + " bytes of metadata (dry run)"@
                } else {
                    "removed "@ + decimal(saved) + " bytes of metadata ("@ + decimal(before as nat)
                        + " -> "@ + decimal(after as nat) + " bytes)"@
                }
            },
            Outcome::Clean { copied_to: Some(dest) } => "no metadata found, copied to "@ + dest@,
            Outcome::Clean { copied_to: None } => "no removable metadata found"@,
            Outcome::Unsupported { reason } => "unsupported: "@ + reason@,
        }
    }

    /// The outcome in words.
    pub fn label(&self) -> (s: String)
        ensures
            s@ == self.text(),
    {
        match self {
            Outcome::Scrubbed { before, after, dry_run } => {
                let saved = if *before >= *after {
                    *before - *after
                } else {
                    0
                };
                if *dry_run {
                    let mut s = "would remove ".to_owned();
                    push_decimal(&mut s, saved);
                    s.append(" bytes of metadata (dry run)");
                    s
                } else {
                    let mut s = "removed ".to_owned();
                    push_decimal(&mut s, saved);
                    s.append(" bytes of metadata (");
                    push_decimal(&mut s, *before);
                    s.append(" -> ");
                    push_decimal(&mut s, *after);
                    s.append(" bytes)");
                    s
                }
            },
            Outcome::Clean { copied_to: Some(dest) } => {
                let mut s = "no metadata found, copied to ".to_owned();
                s.append(dest.as_str());
                s
            },
            Outcome::Clean { copied_to: None } => "no removable metadata found".to_owned(),
            Outcome::Unsupported { reason } => {
                let mut s = "unsupported: ".to_owned();
                s.append(reason.as_str());
                s
            },
        }
    }

    /// Whether the file is of no known format.
    pub fn is_unsupported(&self) -> (yes: bool)
        ensures
            yes == (self is Unsupported),
    {
        match self {
            Outcome::Unsupported { .. } => true,
            _ => false,
        }
    }
}

/// The extensions of the files that can be scrubbed.
pub open spec fn supported_extensions() -> Seq<Seq<char>> {
    seq!["jpg"@, "jpeg"@, "png"@, "webp"@, "mp4"@, "m4v"@, "mov"@, "avi"@]
}

/// Whether `ext` is one of the supported extensions, letter case aside.
pub open spec fn is_supported_extension(ext: Option<Seq<char>>) -> bool {
    ext matches Some(e) && supported_extensions().contains(lowercase(e))
}

/// Whether the extension of `path` is that of a file that can be scrubbed.
pub fn is_supported(path: &FilePath) -> (yes: bool)
    ensures
        yes == is_supported_extension(path.ext()),
{
    match path.extension() {
        None => false,
        Some(e) => {
            let ext = e.as_str().to_ascii_lowercase();
            let ghost all = supported_extensions();
            let yes = ext == "jpg".to_owned() || ext == "jpeg".to_owned() || ext == "png".to_owned()
                || ext == "webp".to_owned() || ext == "mp4".to_owned() || ext == "m4v".to_owned()
                || ext == "mov".to_owned() || ext == "avi".to_owned();
            proof {
                assert(all[0] == "jpg"@ && all[1] == "jpeg"@ && all[2] == "png"@ && all[3]
                    == "webp"@);
                assert(all[4] == "mp4"@ && all[5] == "m4v"@ && all[6] == "mov"@ && all[7]
                    == "avi"@);
            }
            yes
        },
    }
}

/// The format of a file.
#[derive(Clone, Copy, Debug, PartialEq, Eq, Structural)]
pub enum Format {
    Jpeg,
    Png,
    Webp,
    Avi,
    Mp4,
    /// A RIFF file of another form.
    OtherRiff,
    Unknown,
}

/// "ftyp"
pub const FTYP: u32 = 0x66747970;

/// "wide"
pub const WIDE: u32 = 0x77696465;

/// The format that the first bytes of `data` tell.
pub open spec fn format_of(data: Seq<u8>) -> Format {
    if data.len() >= 3 && data[0] == 0xFF && data[1] == 0xD8 && data[2] == 0xFF {
        Format::Jpeg
    } else if png::signature().is_prefix_of(data) {
        Format::Png
    } else if data.len() < 12 {
        Format::Unknown
    } else if be32(data, 0) == riff::RIFF {
        if be32(data, 8) == riff::WEBP {
            Format::Webp
        } else if be32(data, 8) == riff::AVI {
            Format::Avi
        } else {
            Format::OtherRiff
        }
    } else if be32(data, 4) == FTYP || be32(data, 4) == mp4::MOOV || be32(data, 4) == WIDE {
        Format::Mp4
    } else {
        Format::Unknown
    }
}

/// A file's format, or what to say of one that is not known.
#[derive(Debug)]
pub enum Kind {
    Jpeg,
    Png,
    Webp,
    Avi,
    Mp4,
    Unknown(String),
}

/// The extension of a path in small letters, or nothing.
pub open spec fn shown_extension(ext: Option<Seq<char>>) -> Seq<char> {
    match ext {
        Some(e) => lowercase(e),
        None => Seq::empty(),
    }
}

/// What is said of a file of no known format.
pub open spec fn unknown_text(format: Format, ext: Option<Seq<char>>) -> Seq<char> {
    if format == Format::OtherRiff {
        "unrecognized RIFF container (."@ + shown_extension(ext) + ")"@
    } else {
        "unrecognized format (."@ + shown_extension(ext) + ")"@
    }
}

impl Kind {
    /// That this is the kind of a file of `data` with the extension `ext`, which only serves to say
    /// what is not known.
    pub open spec fn is_of(self, data: Seq<u8>, ext: Option<Seq<char>>) -> bool {
        match self {
            Kind::Jpeg => format_of(data) == Format::Jpeg,
            Kind::Png => format_of(data) == Format::Png,
            Kind::Webp => format_of(data) == Format::Webp,
            Kind::Avi => format_of(data) == Format::Avi,
            Kind::Mp4 => format_of(data) == Format::Mp4,
            Kind::Unknown(reason) => {
                &&& format_of(data) == Format::OtherRiff || format_of(data) == Format::Unknown
                &&& reason@ == unknown_text(format_of(data), ext)
            },
        }
    }
}

/// Tells the format of a file from its first bytes.
pub fn detect(data: &[u8], path: &FilePath) -> (kind: Kind)
    ensures
        kind.is_of(data@, path.ext()),
{
    if data.len() >= 3 && data[0] == 0xFF && data[1] == 0xD8 && data[2] == 0xFF {
        return Kind::Jpeg;
    }
    let sign: [u8; 8] = [0x89, 0x50, 0x4E, 0x47, 0x0D, 0x0A, 0x1A, 0x0A];
    assert(sign@ =~= png::signature());
    assert(data@.skip(0) =~= data@);
    if starts_with(data, 0, &sign) {
        return Kind::Png;
    }
    let mut other_riff = false;
    if data.len() >= 12 {
        if read_be32(data, 0) == riff::RIFF {
            let form = read_be32(data, 8);
            if form == riff::WEBP {
                return Kind::Webp;
            }
            if form == riff::AVI {
                return Kind::Avi;
            }
            other_riff = true;
        } else {
            let typ = read_be32(data, 4);
            if typ == FTYP || typ == mp4::MOOV || typ == WIDE {
                return Kind::Mp4;
            }
        }
    }
    let ext = match path.extension() {
        Some(e) => e.as_str().to_ascii_lowercase(),
        None => String::new(),
    };
    let mut reason = if other_riff {
        "unrecognized RIFF container (.".to_owned()
    } else {
        "unrecognized format (.".to_owned()
    };
    reason.append(ext.as_str());
    reason.append(")");
    Kind::Unknown(reason)
}

/// What a scrub makes of a file of the given format. A file of no known format is not looked at.
pub open spec fn scrubbed_as(format: Format, data: Seq<u8>) -> Result<
    Option<Seq<u8>>,
    ScrubError,
> {
    match format {
        Format::Jpeg => jpeg::scrubbed(data),
        Format::Png => png::scrubbed(data),
        Format::Webp => riff::webp_scrubbed(data),
        Format::Avi => riff::avi_scrubbed(data),
        Format::Mp4 => mp4::scrubbed(data),
        Format::OtherRiff => Ok(None),
        Format::Unknown => Ok(None),
    }
}

/// What is to be written for a file.
#[derive(Debug)]
pub enum Write {
    /// Nothing.
    Nothing,
    /// A copy of the file, unchanged, to its place in the output folder.
    Copy,
    /// These bytes to the file's place in the output folder.
    Output(Vec<u8>),
    /// These bytes over the file, after a copy of it where one is to be kept.
    InPlace { data: Vec<u8>, backup: bool },
}

/// What is to be written for a file, and what is then to be said of it.
#[derive(Debug)]
pub struct Plan {
    pub write: Write,
    pub outcome: Outcome,
}

impl Plan {
    /// That this is what to do with a file of `data` that a scrub makes `cleaned` of: with `dest`
    /// its place in the output folder, if there is one.
    pub open spec fn is_for(
        self,
        data: Seq<u8>,
        cleaned: Option<Seq<u8>>,
        dest: Option<Seq<char>>,
        opts: Options,
    ) -> bool {
        match cleaned {
            None => match dest {
                Some(d) if !opts.dry_run => {
                    &&& self.write is Copy
                    &&& self.outcome matches Outcome::Clean { copied_to: Some(to) } && to@ == d
                },
                _ => {
                    &&& self.write is Nothing
                    &&& self.outcome matches Outcome::Clean { copied_to: None }
                },
            },
            Some(new) => {
                &&& self.outcome == Outcome::Scrubbed {
                    before: data.len() as u64,
                    after: new.len() as u64,
                    dry_run: opts.dry_run,
                }
                &&& if opts.dry_run {
                    self.write is Nothing
                } else if dest is Some {
                    self.write matches Write::Output(out) && out@ == new
                } else {
                    self.write matches Write::InPlace { data: out, backup } && out@ == new && backup
                        == opts.backup
                }
            },
        }
    }
}

fn scrub_kind(data: &[u8], kind: &Kind) -> (r: Result<Option<Vec<u8>>, ScrubError>)
    ensures
        scrub_view(r) == match kind {
            Kind::Jpeg => jpeg::scrubbed(data@),
            Kind::Png => png::scrubbed(data@),
            Kind::Webp => riff::webp_scrubbed(data@),
            Kind::Avi => riff::avi_scrubbed(data@),
            Kind::Mp4 => mp4::scrubbed(data@),
            Kind::Unknown(_) => Ok(None),
        },
{
    match kind {
        Kind::Jpeg => jpeg::scrub(data),
        Kind::Png => png::scrub(data),
        Kind::Webp => riff::scrub_webp(data),
        Kind::Avi => riff::scrub_avi(data),
        Kind::Mp4 => mp4::scrub(data),
        Kind::Unknown(_) => Ok(None),
    }
}

/// That `r` is what `process_file` says of a file of `data` with the extension `ext`: nothing is to
/// be done with one of no known format, an error of its scrubber is handed on, and else the plan
/// follows from what its scrubber makes of it.
pub open spec fn is_processed(
    data: Seq<u8>,
    ext: Option<Seq<char>>,
    dest: Option<Seq<char>>,
    opts: Options,
    r: Result<Plan, ScrubError>,
) -> bool {
    let format = format_of(data);
    if format == Format::OtherRiff || format == Format::Unknown {
        &&& r matches Ok(plan)
        &&& plan.write is Nothing
        &&& plan.outcome matches Outcome::Unsupported { reason }
        &&& reason@ == unknown_text(format, ext)
    } else {
        match scrubbed_as(format, data) {
            Err(e) => r == Err::<Plan, _>(e),
            Ok(cleaned) => r matches Ok(plan) && plan.is_for(data, cleaned, dest, opts),
        }
    }
}

/// Decides what to do with the file at `path`, which holds `data`. With `dest`, its place in an
/// output folder, only that is written; a dry run writes nothing anywhere.
pub fn process_file(data: &[u8], path: &FilePath, dest: Option<&str>, opts: &Options) -> (r: Result<
    Plan,
    ScrubError,
>)
    ensures
        is_processed(
            data@,
            path.ext(),
            match dest {
                Some(d) => Some(d@),
                None => None,
            },
            *opts,
            r,
        ),
{
    let kind = detect(data, path);
    let cleaned = scrub_kind(data, &kind)?;
    if let Kind::Unknown(reason) = kind {
        return Ok(Plan { write: Write::Nothing, outcome: Outcome::Unsupported { reason } });
    }
    match cleaned {
        None => match dest {
            Some(d) if !opts.dry_run => {
                let copied_to = Some(d.to_owned());
                Ok(Plan { write: Write::Copy, outcome: Outcome::Clean { copied_to } })
            },
            _ => Ok(Plan { write: Write::Nothing, outcome: Outcome::Clean { copied_to: None } }),
        },
        Some(new) => {
            let outcome = Outcome::Scrubbed {
                before: data.len() as u64,
                after: new.len() as u64,
                dry_run: opts.dry_run,
            };
            let write = if opts.dry_run {
                Write::Nothing
            } else if dest.is_some() {
                Write::Output(new)
            } else {
                Write::InPlace { data: new, backup: opts.backup }
            };
            Ok(Plan { write, outcome })
        },
    }
}

/// What is put behind the path of a file to name the copy that is kept of it.
pub fn backup_suffix() -> (s: &'static str)
    ensures
        s@ == ".bak"@,
{
    ".bak"
}

/// The name that a file is written under before it takes its own: hidden, and marked with the
/// process that writes it.
pub open spec fn temp_name_text(name: Option<Seq<char>>, process: u32) -> Seq<char> {
    let shown = match name {
        Some(n) => n,
        None => "file"@,
    };
    "."@ + shown + ".scrub-tmp-"@ + decimal(process as nat)
}

/// The name to write a file under before it takes its own, `name`, if that is text.
pub fn temp_name(name: Option<&str>, process: u32) -> (s: String)
    ensures
        s@ == temp_name_text(
            match name {
                Some(n) => Some(n@),
                None => None,
            },
            process,
        ),
{
    let mut s = ".".to_owned();
    match name {
        Some(n) => s.append(n),
        None => s.append("file"),
    }
    s.append(".scrub-tmp-");
    push_decimal(&mut s, process as u64);
    s
}

} // verus!

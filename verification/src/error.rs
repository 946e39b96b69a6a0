//! What can be wrong with a file that is being scrubbed.
use vstd::prelude::*;
use crate::text::{decimal, push_decimal};

verus! {

/// Why a file could not be scrubbed.
#[derive(Clone, Copy, Debug, PartialEq, Eq, Structural)]
pub enum ScrubError {
    NotJpeg,
    JpegExpectedMarker { offset: usize },
    JpegTruncatedMarker,
    JpegInvalidMarker { offset: usize },
    JpegTruncated,
    JpegBadSegmentLength { offset: usize },
    JpegSegmentOverflow,
    JpegSegmentPastEnd,
    NotPng,
    PngTruncatedHeader,
    PngBadChunkLength,
    PngChunkPastEnd,
    PngNoChunks,
    NotWebp,
    NotAvi,
    RiffChunkOverflow,
    RiffChunkPastEnd,
    NotMp4,
    Mp4TooDeep,
    Mp4TruncatedLargesize,
    Mp4BoxTooSmall,
    Mp4BoxOverflow,
    Mp4BoxPastEnd,
}

impl ScrubError {
    /// What the error says.
    pub open spec fn text(self) -> Seq<char> {
        match self {
            ScrubError::NotJpeg => "not a JPEG file"@,
            ScrubError::JpegExpectedMarker {
                offset,
            } => "corrupt JPEG: expected marker at offset "@ + decimal(
                offset as nat,
            ),
            ScrubError::JpegTruncatedMarker => "corrupt JPEG: truncated marker"@,
            ScrubError::JpegInvalidMarker {
                offset,
            } => "corrupt JPEG: invalid marker at offset "@ + decimal(
                offset as nat,
            ),
            ScrubError::JpegTruncated => "corrupt JPEG: truncated"@,
            ScrubError::JpegBadSegmentLength {
                offset,
            } => "corrupt JPEG: bad segment length at offset "@ + decimal(
                offset as nat,
            ),
            ScrubError::JpegSegmentOverflow => "corrupt JPEG: bad segment length"@,
            ScrubError::JpegSegmentPastEnd => "corrupt JPEG: segment extends past end of file"@,
            ScrubError::NotPng => "not a PNG file"@,
            ScrubError::PngTruncatedHeader => "corrupt PNG: truncated chunk header"@,
            ScrubError::PngBadChunkLength => "corrupt PNG: bad chunk length"@,
            ScrubError::PngChunkPastEnd => "corrupt PNG: chunk extends past end of file"@,
            ScrubError::PngNoChunks => "corrupt PNG: no chunks found"@,
            ScrubError::NotWebp => "not a WebP file"@,
            ScrubError::NotAvi => "not an AVI file"@,
            ScrubError::RiffChunkOverflow => "corrupt RIFF: chunk size overflow"@,
            ScrubError::RiffChunkPastEnd => "corrupt RIFF: chunk extends past end of file"@,
            ScrubError::NotMp4 => "not an MP4/MOV file"@,
            ScrubError::Mp4TooDeep => "corrupt MP4: nesting too deep"@,
            ScrubError::Mp4TruncatedLargesize => "corrupt MP4: truncated largesize header"@,
            ScrubError::Mp4BoxTooSmall => "corrupt MP4: box smaller than header"@,
            ScrubError::Mp4BoxOverflow => "corrupt MP4: box size overflow"@,
            ScrubError::Mp4BoxPastEnd => "corrupt MP4: box extends past end of file"@,
        }
    }

    /// What the error says.
    pub fn message(&self) -> (s: String)
        ensures
            s@ == self.text(),
    {
        match self {
            ScrubError::NotJpeg => "not a JPEG file".to_owned(),
            ScrubError::JpegExpectedMarker { offset } => at_offset(
                "corrupt JPEG: expected marker at offset ",
                *offset,
            ),
            ScrubError::JpegTruncatedMarker => "corrupt JPEG: truncated marker".to_owned(),
            ScrubError::JpegInvalidMarker { offset } => at_offset(
                "corrupt JPEG: invalid marker at offset ",
                *offset,
            ),
            ScrubError::JpegTruncated => "corrupt JPEG: truncated".to_owned(),
            ScrubError::JpegBadSegmentLength { offset } => at_offset(
                "corrupt JPEG: bad segment length at offset ",
                *offset,
            ),
            ScrubError::JpegSegmentOverflow => "corrupt JPEG: bad segment length".to_owned(),
            ScrubError::JpegSegmentPastEnd => {
                "corrupt JPEG: segment extends past end of file".to_owned()
            },
            ScrubError::NotPng => "not a PNG file".to_owned(),
            ScrubError::PngTruncatedHeader => "corrupt PNG: truncated chunk header".to_owned(),
            ScrubError::PngBadChunkLength => "corrupt PNG: bad chunk length".to_owned(),
            ScrubError::PngChunkPastEnd => "corrupt PNG: chunk extends past end of file".to_owned(),
            ScrubError::PngNoChunks => "corrupt PNG: no chunks found".to_owned(),
            ScrubError::NotWebp => "not a WebP file".to_owned(),
            ScrubError::NotAvi => "not an AVI file".to_owned(),
            ScrubError::RiffChunkOverflow => "corrupt RIFF: chunk size overflow".to_owned(),
            ScrubError::RiffChunkPastEnd => {
                "corrupt RIFF: chunk extends past end of file".to_owned()
            },
            ScrubError::NotMp4 => "not an MP4/MOV file".to_owned(),
            ScrubError::Mp4TooDeep => "corrupt MP4: nesting too deep".to_owned(),
            ScrubError::Mp4TruncatedLargesize => {
                "corrupt MP4: truncated largesize header".to_owned()
            },
            ScrubError::Mp4BoxTooSmall => "corrupt MP4: box smaller than header".to_owned(),
            ScrubError::Mp4BoxOverflow => "corrupt MP4: box size overflow".to_owned(),
            ScrubError::Mp4BoxPastEnd => "corrupt MP4: box extends past end of file".to_owned(),
        }
    }
}

fn at_offset(what: &str, offset: usize) -> (s: String)
    ensures
        s@ == what@ + decimal(offset as nat),
{
    let mut s = what.to_owned();
    push_decimal(&mut s, offset as u64);
    s
}

} // verus!

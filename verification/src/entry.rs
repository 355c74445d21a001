//! Data model of the codec: the entries handed to the encoder, the entry
//! descriptors produced by the decoder, and the error taxonomy.

use vstd::prelude::*;

verus! {

/// One file to be packed: its name bytes and its raw contents.
#[derive(Clone, Debug, PartialEq, Eq)]
pub struct FileEntry {
    pub filename: Vec<u8>,
    pub contents: Vec<u8>,
}

/// Mathematical view of a `FileEntry`.
pub struct FileModel {
    pub filename: Seq<u8>,
    pub contents: Seq<u8>,
}

impl View for FileEntry {
    type V = FileModel;

    open spec fn view(&self) -> FileModel {
        FileModel { filename: self.filename@, contents: self.contents@ }
    }
}

/// The views of a list of files to pack.
pub open spec fn file_models(s: Seq<FileEntry>) -> Seq<FileModel> {
    Seq::new(s.len(), |i: int| s[i]@)
}

/// One decoded entry descriptor: the absolute offset of its first content
/// byte, the absolute offset of its last content byte (inclusive, so the
/// content length is `ends - starts + 1`), and its name bytes.
#[derive(Clone, Debug, PartialEq, Eq)]
pub struct HeaderEntry {
    pub starts: u32,
    pub ends: u32,
    pub filename: Vec<u8>,
}

/// Mathematical view of a `HeaderEntry`.
pub struct HeaderModel {
    pub starts: u32,
    pub ends: u32,
    pub filename: Seq<u8>,
}

impl View for HeaderEntry {
    type V = HeaderModel;

    open spec fn view(&self) -> HeaderModel {
        HeaderModel { starts: self.starts, ends: self.ends, filename: self.filename@ }
    }
}

/// The views of a list of decoded entry descriptors.
pub open spec fn header_models(s: Seq<HeaderEntry>) -> Seq<HeaderModel> {
    Seq::new(s.len(), |i: int| s[i]@)
}

/// Everything that can go wrong while encoding or decoding an archive.
#[derive(Clone, Copy, Debug, PartialEq, Eq, Structural)]
pub enum PakError {
    /// Encoding: the name at this entry index exceeds twelve bytes.
    FormatViolation { index: usize },
    /// Decoding: the buffer ends in the middle of a header offset field.
    TruncatedHeader,
    /// Decoding: no null terminator within the allowed name scan window.
    CorruptFilename,
    /// Content extraction: an entry's byte range falls outside the buffer.
    RangeOutOfBounds,
}

} // verus!

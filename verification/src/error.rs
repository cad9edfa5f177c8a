//! The ways in which a catalog operation can fail.

use vstd::prelude::*;

verus! {

/// Why a catalog operation failed.
#[derive(Clone, Copy, Debug, PartialEq, Eq, Structural)]
pub enum FileListError {
    /// A sum of sizes does not fit in 64 bits.
    SizeOverflow,
    /// The compressor reported an error.
    Compression,
    /// The decompressor reported an error.
    Decompression,
    /// A delta-log object does not hold the text of a batch.
    Malformed,
    /// The delta-log object could not be stored.
    LogWrite,
    /// The progress store could not be updated.
    ProgressWrite,
}

impl FileListError {
    /// The sentence that describes the failure.
    pub open spec fn sentence(self) -> Seq<char> {
        match self {
            FileListError::SizeOverflow => "the sum of the sizes does not fit in 64 bits"@,
            FileListError::Compression => "the delta-log object could not be compressed"@,
            FileListError::Decompression => "the delta-log object could not be decompressed"@,
            FileListError::Malformed => "the delta-log object does not hold a batch"@,
            FileListError::LogWrite => "the delta-log object could not be stored"@,
            FileListError::ProgressWrite => "the progress store could not be updated"@,
        }
    }

    /// A sentence that describes the failure.
    pub fn message(&self) -> (text: &'static str)
        ensures
            text@ == self.sentence(),
    {
        match self {
            FileListError::SizeOverflow => "the sum of the sizes does not fit in 64 bits",
            FileListError::Compression => "the delta-log object could not be compressed",
            FileListError::Decompression => "the delta-log object could not be decompressed",
            FileListError::Malformed => "the delta-log object does not hold a batch",
            FileListError::LogWrite => "the delta-log object could not be stored",
            FileListError::ProgressWrite => "the progress store could not be updated",
        }
    }
}

} // verus!

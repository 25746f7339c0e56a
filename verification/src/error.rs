//! The ways in which an operation of this library can fail.
use vstd::prelude::*;

verus! {

/// What went wrong.
#[derive(Clone, Copy, Debug, PartialEq, Eq, Structural, Hash)]
pub enum Error {
    /// A tile's file name does not have the form `<quadrant>-<timestamp>.<ext>`.
    Parse,
    /// A tile's file name gives a quadrant id outside 0..=3.
    UnsupportedQuadrant,
    /// The image codec could not decode a file.
    ImageDecode,
    /// The compressed frame stream is corrupt or truncated.
    Decompression,
    /// The file system, the network or an output sink failed.
    Io,
}

impl Error {
    /// A short description for diagnostics.
    pub fn describe(&self) -> (text: &'static str)
        ensures
            text@ == Error::description(*self)@,
    {
        match self {
            Error::Parse => "malformed tile file name",
            Error::UnsupportedQuadrant => "quadrant id outside 0..=3",
            Error::ImageDecode => "image could not be decoded",
            Error::Decompression => "compressed frame stream is corrupt",
            Error::Io => "input or output failed",
        }
    }

    /// The text that `describe` returns for each error.
    pub open spec fn description(e: Error) -> &'static str {
        match e {
            Error::Parse => "malformed tile file name",
            Error::UnsupportedQuadrant => "quadrant id outside 0..=3",
            Error::ImageDecode => "image could not be decoded",
            Error::Decompression => "compressed frame stream is corrupt",
            Error::Io => "input or output failed",
        }
    }
}

} // verus!

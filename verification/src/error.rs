//! The ways in which an operation on an image can fail.

use vstd::prelude::*;

verus! {

/// Why an operation was refused.
#[derive(Clone, Copy, Debug, PartialEq, Eq, Structural)]
pub enum Error {
    /// The decoded input is not 8-bit RGBA of the stated dimensions.
    UnsupportedFormat,
    /// A pixel or a region lies outside the image.
    OutOfBounds,
    /// A mean was asked for over a region without pixels.
    EmptyRegion,
}

impl Error {
    /// The cause in words.
    pub open spec fn description(self) -> Seq<char> {
        match self {
            Error::UnsupportedFormat => "Only supports RGBA8"@,
            Error::OutOfBounds => "pixel coordinates outside the image"@,
            Error::EmptyRegion => "mean colour of a region without pixels"@,
        }
    }

    /// The cause in words.
    pub fn message(&self) -> (text: &'static str)
        ensures
            text@ == self.description(),
    {
        match self {
            Error::UnsupportedFormat => "Only supports RGBA8",
            Error::OutOfBounds => "pixel coordinates outside the image",
            Error::EmptyRegion => "mean colour of a region without pixels",
        }
    }
}

} // verus!

//! Errors of the image codec.

use vstd::prelude::*;

verus! {

/// Why an image could not be read, checked or written.
#[derive(Debug)]
pub enum ImageError {
    InvalidMagic { magic: u32 },
    IllegalVerify,
    InvalidVersion { version: u32 },
    UnmatchedVerify,
    DuplicatedItem { stem: String, extension: String },
    MissingItem { stem: String, extension: String },
    UnexpectedItem { stem: String, extension: String },
    /// A header and table whose length differs from what their record count
    /// gives; the encoder's layout is proved to have the computed length, so
    /// it never returns this.
    SizeMismatch { expected: usize, actual: usize },
    /// A verify record whose digest text is not hexadecimal.
    InvalidDigest,
    /// The file ends before a header, record or item body it announces.
    Truncated,
    /// The image would hold more bytes than memory can address, or more
    /// records than the header can count.
    TooLarge,
}

/// What an [`ImageError`] says, with names as character sequences.
pub enum ImageFault {
    InvalidMagic(u32),
    IllegalVerify,
    InvalidVersion(u32),
    UnmatchedVerify,
    DuplicatedItem(Seq<char>, Seq<char>),
    MissingItem(Seq<char>, Seq<char>),
    UnexpectedItem(Seq<char>, Seq<char>),
    SizeMismatch(usize, usize),
    InvalidDigest,
    Truncated,
    TooLarge,
}

impl View for ImageError {
    type V = ImageFault;

    open spec fn view(&self) -> ImageFault {
        match self {
            ImageError::InvalidMagic { magic } => ImageFault::InvalidMagic(*magic),
            ImageError::IllegalVerify => ImageFault::IllegalVerify,
            ImageError::InvalidVersion { version } => ImageFault::InvalidVersion(*version),
            ImageError::UnmatchedVerify => ImageFault::UnmatchedVerify,
            ImageError::DuplicatedItem { stem, extension } => ImageFault::DuplicatedItem(
                stem@,
                extension@,
            ),
            ImageError::MissingItem { stem, extension } => ImageFault::MissingItem(
                stem@,
                extension@,
            ),
            ImageError::UnexpectedItem { stem, extension } => ImageFault::UnexpectedItem(
                stem@,
                extension@,
            ),
            ImageError::SizeMismatch { expected, actual } => ImageFault::SizeMismatch(
                *expected,
                *actual,
            ),
            ImageError::InvalidDigest => ImageFault::InvalidDigest,
            ImageError::Truncated => ImageFault::Truncated,
            ImageError::TooLarge => ImageFault::TooLarge,
        }
    }
}

/// The view of a result whose success value has a view of its own.
pub open spec fn result_view<T: View>(r: Result<T, ImageError>) -> Result<T::V, ImageFault> {
    match r {
        Ok(v) => Ok(v@),
        Err(e) => Err(e@),
    }
}

} // verus!

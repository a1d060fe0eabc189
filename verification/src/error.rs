//! The errors that decoding can end in.

use vstd::prelude::*;

verus! {

/// What can go wrong while decompressing LZW data.
#[derive(Debug)]
pub enum LZWError {
    /// The minimum code size of a frame lies outside `[2, 8]`.
    CodeSizeOutOfRange(u8),
    /// The bitstream ended without an end-of-information code. The lenient
    /// decompressor of this crate never raises it.
    MissingEndCode,
    /// A code that the table cannot resolve, with the size of the table at
    /// the moment the code was read.
    CodeOutOfBounds(usize, usize),
}

/// The ways in which reading from the input can fail.
#[derive(Debug)]
pub enum IoErrorKind {
    /// The input ended before the requested bytes were read.
    UnexpectedEof,
}

/// Every way in which decoding a GIF stream can end without a result.
#[derive(Debug)]
pub enum DecodeError {
    IO(IoErrorKind),
    NotAGif,
    InvalidVersion(String),
    UnknownBlock(u8),
    ColorTableOutOfBounds,
    FrameUnderflow,
    FrameOverflow,
    LZWError(LZWError),
}

/// The mathematical content of a [`DecodeError`]: the version string is held
/// as a sequence of characters.
pub enum Failure {
    IO(IoErrorKind),
    NotAGif,
    InvalidVersion(Seq<char>),
    UnknownBlock(u8),
    ColorTableOutOfBounds,
    FrameUnderflow,
    FrameOverflow,
    LZWError(LZWError),
}

impl View for DecodeError {
    type V = Failure;

    open spec fn view(&self) -> Failure {
        match *self {
            DecodeError::IO(k) => Failure::IO(k),
            DecodeError::NotAGif => Failure::NotAGif,
            DecodeError::InvalidVersion(s) => Failure::InvalidVersion(s@),
            DecodeError::UnknownBlock(b) => Failure::UnknownBlock(b),
            DecodeError::ColorTableOutOfBounds => Failure::ColorTableOutOfBounds,
            DecodeError::FrameUnderflow => Failure::FrameUnderflow,
            DecodeError::FrameOverflow => Failure::FrameOverflow,
            DecodeError::LZWError(e) => Failure::LZWError(e),
        }
    }
}

/// The failure of a read that ran past the end of the input.
pub open spec fn eof() -> Failure {
    Failure::IO(IoErrorKind::UnexpectedEof)
}

} // verus!

//! A GIF decoder that turns an in-memory GIF stream into fully composited
//! RGBA frames plus loop metadata.
//!
//! Every function carries a contract over a mathematical model of the format:
//! byte sequences, pixel sequences and the dictionary of the LZW decompressor.

pub mod bits;
pub mod blocks;
pub mod canvas;
pub mod color;
pub mod decoder;
pub mod error;
pub mod frame;
pub mod lzw;
pub mod reader;
pub mod theorems;

pub use bits::BitCursor;
pub use canvas::Canvas;
pub use color::{Color, ColorTable};
pub use decoder::{decode, DecodedGif, Decoder};
pub use error::{DecodeError, IoErrorKind, LZWError};
pub use frame::{DisposalMethod, FrameDecoder, GifFrame};
pub use lzw::{LZWIterator, NextSeqResult};
pub use reader::Reader;

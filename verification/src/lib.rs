//! Decoder for Minecraft "Anvil" region container files (.mca).
//!
//! A region file packs up to 1024 world chunks. Each chunk is framed by a
//! length and a compression-type byte, compressed with zlib, and internally
//! serialized in the NBT (Named Binary Tag) binary tree format. This crate
//! decodes the container layer (location table, chunk framing) and the NBT
//! tag tree, reporting malformed input through typed errors.

use vstd::prelude::*;

pub mod bytes;
pub mod nbt;
pub mod region;

verus! {

/// Everything that can go wrong while decoding a region file or an NBT tree.
#[derive(Clone, Copy, Debug, PartialEq, Eq, Structural)]
pub enum NbtError {
    /// Fewer than 8192 bytes available for the location table.
    TruncatedHeader,
    /// A chunk frame or an NBT payload runs past the end of its buffer.
    TruncatedChunk,
    /// Compression type other than zlib (2) in a chunk frame.
    UnsupportedCompressionType(u8),
    /// Malformed or truncated zlib stream.
    DecompressionError,
    /// Tag id outside 0..=12.
    InvalidTagType(u8),
    /// Negative or implausibly large count field for an array, list or string.
    InvalidLength,
    /// A name or string payload is not valid UTF-8.
    TextDecodeError,
    /// A compound's byte stream ends before its End sentinel.
    MissingTerminator,
    /// The tag tree nests deeper than the decoder's fixed depth bound.
    DepthLimitExceeded,
}

} // verus!

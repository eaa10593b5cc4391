//! Shared types and constants of the PKWare Data Compression Library format.

use vstd::prelude::*;

verus! {

/// Number of entries of the byte-pair hash table.
pub const HASH_TABLE_SIZE: usize = 0x900;

/// Size of the work buffer that holds the sliding window and the data being compressed.
pub const WORK_BUFF_SIZE: usize = 0x2204;

/// Size of the output buffer.
pub const OUT_BUFF_SIZE: usize = 0x802;

/// Number of bytes gathered in the output buffer before they are flushed.
pub const OUT_FLUSH_LIMIT: u32 = 0x800;

/// Number of entries of the literal/length code table.
pub const LITERAL_TABLE_SIZE: usize = 0x306;

/// Number of entries of the distance code table.
pub const DIST_TABLE_SIZE: usize = 0x40;

/// Longest repetition that one length code can describe.
pub const MAX_REP_LENGTH: usize = 0x204;

/// Entry of the literal/length table that marks the end of the stream.
pub const END_MARKER: usize = 0x305;

/// How literal bytes are coded.
#[derive(Clone, Copy, Debug, PartialEq, Eq, Structural)]
pub enum CompressionMode {
    /// Every literal byte takes nine bits.
    Binary,
    /// Literal bytes are coded with a table tuned for text.
    ASCII,
}

/// Size of the sliding dictionary.
#[derive(Clone, Copy, Debug, PartialEq, Eq, Structural)]
pub enum DictionarySize {
    Size1K,
    Size2K,
    Size4K,
}

/// Errors of the compressor.
#[derive(Debug, PartialEq, Eq)]
pub enum PkLibError {
    InvalidData(String),
    InvalidLength(u32),
    InvalidDistance(u32),
}

/// The value that goes into the stream's first byte for a mode.
pub open spec fn mode_ctype(mode: CompressionMode) -> u32 {
    match mode {
        CompressionMode::Binary => 0,
        CompressionMode::ASCII => 1,
    }
}

/// Number of low distance bits that follow a distance code, for a dictionary size.
pub open spec fn dict_bits(size: DictionarySize) -> u32 {
    match size {
        DictionarySize::Size1K => 4,
        DictionarySize::Size2K => 5,
        DictionarySize::Size4K => 6,
    }
}

/// Number of bytes of a dictionary.
pub open spec fn dict_bytes(size: DictionarySize) -> u32 {
    match size {
        DictionarySize::Size1K => 1024,
        DictionarySize::Size2K => 2048,
        DictionarySize::Size4K => 4096,
    }
}

/// A repetition found in the work buffer: `length` bytes that equal those
/// `distance` bytes before them.
#[derive(Clone, Copy, Debug, PartialEq, Eq, Structural)]
pub struct MatchResult {
    pub length: usize,
    pub distance: usize,
}

impl MatchResult {
    pub open spec fn spec_is_match(&self) -> bool {
        self.length >= 2
    }

    /// A match is worth coding when it covers at least two bytes.
    #[verifier::when_used_as_spec(spec_is_match)]
    pub fn is_match(&self) -> (r: bool)
        ensures
            r == self.spec_is_match(),
    {
        self.length >= 2
    }
}

/// The hash of a pair of bytes: four times the first plus five times the second.
pub open spec fn pair_hash(a: u8, b: u8) -> int {
    a as int * 4 + b as int * 5
}

/// Hash of the first two bytes of `buffer`.
pub fn byte_pair_hash(buffer: &[u8]) -> (r: usize)
    requires
        buffer@.len() >= 2,
    ensures
        r == pair_hash(buffer@[0], buffer@[1]),
        r < HASH_TABLE_SIZE,
{
    (buffer[0] as usize) * 4 + (buffer[1] as usize) * 5
}

} // verus!

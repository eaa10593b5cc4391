//! Verified core of a PKWare DCL "implode" compressor: the byte-pair hash
//! table, the search for repetitions, the bit writer and the streaming
//! compressor, with a model of the compressed stream as coded tokens.

pub mod bits;
pub mod codes;
pub mod common;
pub mod hash;
pub mod pattern;
pub mod state;
pub mod tables;
pub mod tokens;
pub mod writer;

pub use common::{
    byte_pair_hash, CompressionMode, DictionarySize, MatchResult, PkLibError, HASH_TABLE_SIZE,
    MAX_REP_LENGTH,
};
pub use hash::HashPositionsIter;
pub use state::ImplodeState;
pub use writer::{implode_bytes, ImplodeWriter};

//! Sizes shared by the coding stages.
use vstd::prelude::*;

verus! {

/// Number of ring slots in a match bucket.
pub const LZ_MF_BUCKET_ITEM_SIZE: usize = 4094;

/// Number of classes that reduced offsets are grouped into.
pub const LZ_ROID_SIZE: usize = 22;

/// Number of match length classes that fit into a symbol.
pub const LZ_LENID_SIZE: usize = 6;

/// Shortest match that is coded as a match.
pub const LZ_MATCH_MIN_LEN: usize = 4;

/// Longest match that the match finder reports.
pub const LZ_MATCH_MAX_LEN: usize = 240;

/// Largest number of items in one encoded chunk.
pub const LZ_CHUNK_SIZE: usize = 1048576;

/// Bytes that a chunk takes at most besides its items.
pub const LZ_CHUNK_OVERHEAD: usize = 1101;

/// Bytes that an item takes at most.
pub const LZ_ITEM_MAX_SIZE: usize = 5;

/// Number of symbols: the bytes, the match symbols and the word symbol.
pub const SYMRANK_NUM_SYMBOLS: usize = 389;

/// Number of symbols that a move-to-front coder ranks.
pub const MTF_NUM_SYMBOLS: usize = 389;

/// The symbol of a predicted two-byte word.
pub const WORD_SYMBOL: u16 = 388;

} // verus!

//! Verified Lempel-Ziv block coding.
//!
//! An `LZEncoder` turns a text into chunks and an `LZDecoder` turns the chunks
//! back into the text. Both keep the same context from chunk to chunk: match
//! buckets, predicted words and symbol ranks. `model` says what a chunk is,
//! `roundtrip` proves that decoding undoes encoding.
pub mod bits;
pub mod codelen;
pub mod consts;
pub mod facts;
pub mod huffman;
pub mod kraft;
pub mod laws;
pub mod lz;
pub mod matchfinder;
pub mod model;
pub mod mtf;
pub mod roid;
pub mod roundtrip;
pub mod stats;

pub use lz::{DecodeError, LZDecoder, LZEncoder};
pub use model::LZCfg;
pub use mtf::MTFCoder;

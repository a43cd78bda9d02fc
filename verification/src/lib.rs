//! A block-sorting byte-stream compressor: Burrows-Wheeler transform,
//! move-to-front, zero-run-length coding and adaptive arithmetic coding,
//! each stage with a mathematical model and a machine-checked contract.
//!
//! The stages, leaves first:
//!
//! - [`packer`]: bit fields in a byte buffer;
//! - [`bijective`]: the numerals in which run lengths are written;
//! - [`suffix_order`], [`suffixarray`]: the order of the suffixes of a block,
//!   and the suffix array built by prefix doubling;
//! - [`bwt`], [`bwt_laws`]: the Burrows-Wheeler transform, its inverse, and
//!   why the inverse undoes the transform;
//! - [`mtf`]: the move-to-front transform;
//! - [`rle`]: run-length coding of zeros;
//! - [`arithmetic`], [`arithmetic_laws`], [`coder_round_trip`]: the arithmetic
//!   coder, how many bits it writes and reads, and on which inputs the decoder
//!   finds the codes again;
//! - [`block`], [`stream`], [`round_trip`]: the block codec, the framed
//!   stream, and on which inputs expanding undoes compressing.

pub mod arithmetic;
pub mod arithmetic_laws;
pub mod bijective;
pub mod block;
pub mod bwt;
pub mod bwt_laws;
pub mod coder_round_trip;
pub mod endian;
pub mod error;
pub mod mtf;
pub mod packer;
pub mod rle;
pub mod round_trip;
pub mod stream;
pub mod suffix_order;
mod suffix_merge;
mod suffix_sort;
pub mod suffixarray;

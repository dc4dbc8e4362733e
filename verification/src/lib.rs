//! Bit-level operations on byte buffers.
//!
//! A buffer of bytes is read as a sequence of bits, most-significant bit
//! first within each byte.  For arithmetic the bytes are ordered
//! most-significant first (big-endian).  The crate offers:
//!
//! - bitwise manipulation: shifts with cross-byte carry, bit reversal,
//!   complement, AND/OR/XOR with big- or little-endian alignment, bit
//!   counting and single-bit access;
//! - a bit-sequence view and a chunk codec that regroups the bit stream
//!   into fixed-width integer chunks and back;
//! - big-endian arithmetic: comparison, addition, subtraction,
//!   multiplication and long division over fixed-width buffers, with
//!   explicit carry/borrow/overflow reporting.

pub mod arith;
pub mod bitwise;
pub mod chunks;
pub mod convert;
pub mod laws;
pub mod model;
pub mod nbits;
pub mod wrap;

pub use convert::ToBits;
pub use nbits::NBits;
pub use wrap::BitsMut;
pub use wrap::BitsRef;

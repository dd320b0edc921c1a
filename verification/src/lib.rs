//! A verified implementation of the LZO1X byte stream ("lzokay" dialect).
//!
//! The encoder is a greedy sliding-window match finder over a ring buffer with
//! a direct 2-byte table and a hash-chained 3-byte table; the decoder is a
//! state machine over the LZO opcode alphabet.  Both are specified against
//! mathematical models: [`model::compressed`] gives the exact byte stream the
//! encoder produces for a given input, and [`decompress::decompressed`] gives
//! the exact outcome of decoding.
//!
//! Proved laws:
//! - the stream emitted for a source is a function of that source alone —
//!   never of the output buffer or of what an earlier call left in a
//!   reused [`compress::Dict`] (the contracts of [`compress::compress`],
//!   [`compress::compress_with_dict`] and [`compress::compress_no_alloc`]
//!   all pin the result to [`model::compressed`]);
//! - a destination even one byte shorter than that stream is reported as
//!   [`Error::OutputOverrun`] (the contract of
//!   [`compress::compress_no_alloc`]);
//! - the stream never exceeds the worst-case size
//!   [`compress::compress_worst_size`]
//!   ([`model::lemma_compressed_worst_size`]), so the allocating entry
//!   points always succeed;
//! - every stream ends with the three terminator bytes
//!   ([`model::lemma_compressed_terminated`]).

use vstd::prelude::*;

pub mod compress;
pub mod decompress;
pub mod model;

verus! {

/// Error result codes.
#[derive(Debug, PartialEq, Eq, Structural)]
pub enum Error {
    /// Likely indicates bad compressed LZO input.
    LookbehindOverrun,
    /// Output buffer was not large enough to store the result.
    OutputOverrun,
    /// Compressed input buffer is invalid or truncated.
    InputOverrun,
    /// Unknown error.
    Error,
    /// Decompression succeeded, but input buffer has remaining data.
    InputNotConsumed,
}

} // verus!

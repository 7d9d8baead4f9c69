//! An LZSS compressor in the style of heatshrink: a bit-packed stream of literal and
//! back-reference tokens, with a fixed window and a bounded lookahead.
use vstd::prelude::*;

pub mod bits;
pub mod bits_bytes_iter;
pub mod byte_buffer;
pub mod codec;
pub mod model;
pub mod offset_reader;
mod storage;

pub use bits_bytes_iter::BitsBytesIter;
pub use byte_buffer::ByteBuffer;
pub use codec::HeatShrink;
pub use model::Token;
pub use offset_reader::OffsetReader;

verus! {

} // verus!

//! Buffers of encoded and of decoded values, and the errors of the library.
use vstd::prelude::*;

verus! {

/// A buffer of bytes.
#[derive(Debug)]
pub struct LanceBuffer {
    pub bytes: Vec<u8>,
}

impl View for LanceBuffer {
    type V = Seq<u8>;

    open spec fn view(&self) -> Seq<u8> {
        self.bytes@
    }
}

/// What an encoder made of a column.
#[derive(Debug)]
pub struct EncodedBuffer {
    pub parts: Vec<LanceBuffer>,
}

/// How the bits of a bitpacked buffer are laid out.
#[derive(Debug)]
pub struct BitpackingBufferMeta {
    /// The number of bits of a packed value.
    pub bits_per_value: u64,
    /// Whether the highest of those bits is a sign.
    pub signed: bool,
}

/// What a reader of an encoded buffer has to know.
#[derive(Debug)]
pub struct EncodedBufferMeta {
    /// The number of bits of a value before encoding.
    pub bits_per_value: u64,
    pub bitpacking: Option<BitpackingBufferMeta>,
    /// The name of the compression that was applied on top, if any.
    pub compression_scheme: Option<String>,
}

/// Values of one width, one after the other.
#[derive(Debug)]
pub struct FixedWidthDataBlock {
    pub data: LanceBuffer,
    /// The number of bits of a value.
    pub bits_per_value: u64,
    pub num_values: u64,
}

/// Decoded values.
#[derive(Debug)]
pub enum DataBlock {
    FixedWidth(FixedWidthDataBlock),
}

/// Why an operation was refused.
#[derive(Debug)]
pub enum Error {
    /// The input cannot be encoded.
    InvalidInput { message: String },
}

} // verus!

//! Encoding and decoding of DNS messages in their 512-byte wire form, with
//! domain-name compression, behind a bounds-checked byte cursor.
use vstd::prelude::*;

pub mod dns;
pub mod names;
pub mod parser;
pub mod round_trip;

verus! {

/// The ways in which encoding or decoding can fail.
#[derive(Debug, Clone, Copy, PartialEq, Eq, Structural)]
pub enum DnsError {
    /// A read went past the bytes that hold data.
    BufferExhausted,
    /// A write went past the capacity of the buffer.
    BufferFull,
    /// An absolute index or range lies beyond the bytes that hold data.
    OutOfRange,
    /// A name followed more compression pointers than the bound allows.
    CompressionLoop,
    /// A label of a name to encode is longer than 63 bytes.
    LabelTooLong,
}

/// The result of every fallible codec operation.
pub type Result<T> = core::result::Result<T, DnsError>;

} // verus!

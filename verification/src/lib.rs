//! Encoder and decoder for a desktop-IPC wire format: signature parsing,
//! value marshalling with alignment and framing, and a streaming unmarshaller.

pub mod conversion;
pub mod errors;
pub mod marshal;
pub mod message_builder;
pub mod params;
pub mod unmarshal;
pub mod signature;
pub mod wire_util;

use vstd::prelude::*;

verus! {

/// Byte order used for one whole encoding or decoding pass.
#[derive(Copy, Clone, Debug, PartialEq, Eq, Structural)]
pub enum ByteOrder {
    LittleEndian,
    BigEndian,
}

} // verus!

use vstd::prelude::*;

pub mod crypto;
pub mod errors;
pub mod frames;
pub mod laws;
pub mod reader;
pub mod transport;
pub mod writer;

verus! {

/// Largest payload a single AEAD frame may carry: the length field's upper
/// two bits are reserved and must be zero.
pub const MAX_PACKET_SIZE: usize = 0x3FFF;

} // verus!

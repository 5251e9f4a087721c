//! Hides a byte payload in the least-significant bits of an image's channel
//! bytes, and recovers it.
//!
//! The payload is packed into bits, most significant bit first, followed by
//! the bits of a terminator byte. Encoding writes those bits into the low bit
//! of consecutive channel bytes; decoding reads them back eight at a time and
//! stops at the first reconstructed terminator.
pub mod packer;
pub mod codec;
pub mod laws;

//! IEEE 802.15.4 MAC frames: decoding from and encoding to bytes.
pub mod codec;
pub mod mac;

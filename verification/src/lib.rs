//! Encode a file into a sequence of QR-code frames and recover it again.
//!
//! The pipeline is: compress, optionally encrypt, split into indexed chunks,
//! serialise each chunk into a frame payload, and render every payload as a QR
//! code.  Decoding reads the payloads back, checks them, reassembles the stream,
//! decrypts, decompresses and verifies the result against the header.

pub mod bytes;
pub mod checksum;
pub mod cli;
pub mod compress;
pub mod crypto;
pub mod decode;
pub mod encode;
pub mod protocol;
pub mod qr;
pub mod video;

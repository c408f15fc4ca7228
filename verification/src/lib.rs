//! Efficient streaming of tar archives between two peers.
//!
//! A sender first transmits a compact *index*: a gzip-compressed tar in which
//! every regular-file entry carries the 20-byte SHA-1 digest of its content
//! instead of the content itself. The receiver compares the digests against a
//! local library of previously received (tarball, index) pairs, reconstructs
//! whatever it can locally, requests only the missing entries, and assembles
//! the exact original tarball together with a cached copy of the index.
//!
//! The crate holds the verified core: the byte-level tar model, the
//! length-prefixed frame codec, the index builder, and the two protocol
//! state machines. Stream and file I/O live outside it.

pub mod archive;
pub mod bytes;
pub mod gzip;
pub mod index;
pub mod receive;
pub mod tarball_codec;
pub mod transfer;
pub mod upload;

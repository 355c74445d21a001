//! Codec for the DUNE II PAK resource-archive format: a flat container
//! holding a header table of (offset, name) records, a four-byte all-zero
//! sentinel, and the concatenated raw contents of the stored files.

pub mod bytes;
pub mod codec;
pub mod entry;
pub mod format;
pub mod roundtrip;

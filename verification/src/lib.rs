//! Maintains a plain-text checksum manifest: each entry is one line of the
//! form `<64 lowercase hex digits><two spaces><file path>`. The library
//! computes a streamed SHA-256 digest of a source's bytes (through the sha2
//! crate) and inserts or replaces the manifest line for a given path, leaving
//! every other line byte-identical.

pub mod hashing;
pub mod hex;
pub mod manifest;

//! Content-addressed distribution manifests for a tree of files.
//!
//! The crate enumerates every file of a content source (a directory tree or a
//! zip archive), splits the aggregate byte stream into bounded-size chunks,
//! fingerprints each chunk, and emits a manifest describing exactly which byte
//! ranges of which files compose each chunk.

pub mod backend;
pub mod checksum;
pub mod coverage;
pub mod manifest;
pub mod packer;
pub mod types;
pub mod zip;

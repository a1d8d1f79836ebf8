//! A single-file archive container: named blobs, run-length compressed on
//! request, always sealed with an authenticated cipher, and located through an
//! index that a fixed-size footer at the end of the file points to.
//!
//! The library works on the archive's bytes held in memory; reading them from
//! and writing them to a file is the caller's part.

pub mod error;
pub mod bytes;
pub mod compress;
pub mod decompress;
pub mod encrypt;
pub mod write;
pub mod read;
pub mod layout;
pub mod laws;
pub mod archive;
pub mod delete;
pub mod index;
pub mod glob;
pub mod shadow;

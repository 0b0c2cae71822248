//! Core of a chunked, resumable file-transfer protocol.
//!
//! A sender slices a file into fixed-size chunks and answers per-chunk pull
//! requests; a receiver admits chunks into a bounded slot budget, assembles
//! them into a staging buffer, verifies a 64-bit checksum and produces an
//! atomic commit plan.  All wire frames are plain byte vectors; the transport
//! and the disk sit outside this crate.

pub mod arbitrator;
pub mod checksum;
pub mod chunk;
pub mod error;
pub mod file;
pub mod options;
pub mod server;
pub mod text;
pub mod wire;

pub use error::Error;
pub use file::File;
pub use options::FileOptions;
pub use options::Options;
pub use server::Server;

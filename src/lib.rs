//! A deduplicating file store built on content-defined chunking.
//!
//! Writes are split into chunks, each chunk is hashed and stored once per
//! distinct hash, and a file is recovered by replaying its ordered list of
//! chunk hashes.
use vstd::prelude::*;

pub mod assoc;
pub mod base;
pub mod bytes;
pub mod chunk;
pub mod chunker;
pub mod clock;
pub mod database;
pub mod disk;
pub mod error;
pub mod file_layer;
pub mod hasher;
pub mod leap;
pub mod map;
pub mod system;

pub use chunk::Chunk;
pub use base::HashMapBase;
pub use chunker::{Chunker, FSChunker};
pub use clock::WriteMeasurements;
pub use database::{Database, IterableDatabase};
pub use error::{Error, ErrorKind};
pub use hasher::{Hasher, SimpleHasher};
pub use leap::{LeapChunker, SizeParams};
pub use map::{CdcMap, ChunkStorage, CopyScrubber, Data, Scrub, ScrubMeasurements};
pub use system::{create_cdc_filesystem, FileSystem, FileSystemBuilder};

verus! {

/// One kilobyte.
pub const KB: usize = 1024;

/// One megabyte.
pub const MB: usize = 1048576;

/// One gigabyte.
pub const GB: usize = 1073741824;

/// Largest number of bytes handed out by one block-granularity read.
pub const SEG_SIZE: usize = 1048576;

} // verus!

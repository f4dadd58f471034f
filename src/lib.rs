//! Compaction of sector-based container files: each container holds up to
//! 1024 independently compressed sub-records in 4096-byte sectors. Sub-records
//! whose age field is at or below a threshold are dropped, and the survivors
//! are repacked into a gap-free sector layout.
use vstd::prelude::*;

pub mod codec;
pub mod decompress;
pub mod scan;
pub mod pack;
pub mod names;
pub mod laws;

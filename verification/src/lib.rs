//! Verified core of a read-only filesystem that presents a RomM library as a
//! plain directory tree: the in-memory tree, the inode table, the chunked
//! cache's bookkeeping, configuration resolution and the request shapes of the
//! RomM API.
pub mod api;
pub mod config;
pub mod fs;
pub mod profiles;
pub mod text;
pub mod timestamp;

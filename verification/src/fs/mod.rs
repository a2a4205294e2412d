//! The filesystem side: the directory tree, the inode table, the chunk cache's
//! bookkeeping and the decisions behind each FUSE operation.
pub mod cache;
pub mod inodes;
pub mod romm_fs;
pub mod tree;

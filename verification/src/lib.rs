//! A small block-structured file system library.
//!
//! The library turns a flat sequence of equally sized blocks into a volume
//! with a superblock, a free-space bitmap, a table of inodes, and directories
//! stored as inode data.  Every layer is specified against a mathematical
//! model of the disk contents and verified.

pub mod blocks;
pub mod byteops;
pub mod device;
pub mod dirs;
pub mod errors;
pub mod fs;
pub mod inodes;
pub mod laws;
pub mod layout;
pub mod model;
pub mod records;
pub mod rw;

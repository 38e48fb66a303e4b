//! The file subsystem of a small Unix-like kernel, verified: a crash-safe redo log that
//! groups the block writes of concurrent operations into atomic transactions, a bitmap
//! block allocator, inodes with direct and indirect blocks, directories, pipes, and the
//! open-file table.
//!
//! The device and its block cache are modelled as arrays of blocks (`disk::Disk`); the
//! file system's invariant (`fs::FileSystem::wf`) ties the two through the log. Waiting,
//! sleeping and waking are the scheduler's: where an operation would block, the functions
//! here say so in their result and leave the state unchanged.
use vstd::prelude::*;

pub mod dinode;
pub mod dir;
pub mod dirops;
pub mod disk;
pub mod file;
pub mod fileio;
pub mod fs;
pub mod inode;
pub mod inode_io;
pub mod log;
pub mod logspec;
pub mod param;
pub mod pipe;
pub mod release;
pub mod sleeplock;
pub mod sysfile;


use vstd::prelude::*;

verus! {

/// Size of a disk block in bytes.
pub const BSIZE: usize = 1024;

/// Number of blocks reserved for the on-disk log, header included.
pub const LOGSIZE: usize = 30;

/// Most blocks a single file-system operation may write.
pub const MAXOPBLOCKS: usize = 10;

/// Number of direct block addresses in an inode.
pub const NDIRECT: usize = 12;

/// Number of block addresses held by an indirect block, `BSIZE / 4`.
pub const NINDIRECT: usize = 256;

/// Largest file, in blocks, `NDIRECT + NINDIRECT`.
pub const MAXFILE: usize = 268;

/// Longest name of a directory entry.
pub const DIRSIZ: usize = 14;

/// Size of a directory entry on disk.
pub const DIRENT_SIZE: usize = 16;

/// On-disk inodes per block, `BSIZE` over the 64 bytes of an on-disk inode.
pub const IPB: usize = 16;

/// Bitmap bits per block, `BSIZE * 8`.
pub const BPB: usize = 8192;

/// Open files per process.
pub const NOFILE: usize = 16;

/// Open files in the whole system.
pub const NFILE: usize = 100;

/// Inodes held in memory at once.
pub const NINODE: usize = 50;

/// Number of device-switch entries.
pub const NDEV: usize = 10;

/// Bytes buffered by a pipe.
pub const PIPESIZE: usize = 512;

/// Inode number of the root directory.
pub const ROOTINO: u32 = 1;

/// Inode types.
pub const T_DIR: i16 = 1;
pub const T_FILE: i16 = 2;
pub const T_DEVICE: i16 = 3;

/// Open-mode flags.
pub const O_RDONLY: i32 = 0x000;
pub const O_WRONLY: i32 = 0x001;
pub const O_RDWR: i32 = 0x002;
pub const O_CREATE: i32 = 0x200;
pub const O_TRUNC: i32 = 0x400;

} // verus!

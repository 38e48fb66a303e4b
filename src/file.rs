//! Open files: regular files, devices and pipes behind one reference-counted object, and
//! the process-wide table that holds them.
use vstd::prelude::*;

use crate::param::{NDEV, NFILE};

verus! {

/// Largest part of a write that one transaction carries, `(MAXOPBLOCKS - 4) / 2 * BSIZE`:
/// the inode, an indirect block, allocation blocks and two blocks of slop for unaligned
/// writes fit in `MAXOPBLOCKS`.
pub const MAXWRITE: usize = 3072;

/// What an open file refers to.
#[derive(Clone, Copy, Debug)]
pub enum FileType {
    Empty,
    /// A pipe, by its index in the pipe table.
    Pipe { pipe: usize },
    /// An inode, by its index in the inode table, and the offset of the next read or write.
    Inode { ip: usize, off: u32 },
    /// A device file, by its inode and its major device number.
    Device { ip: usize, major: u16 },
}

#[derive(Clone, Copy, Debug)]
pub struct File {
    pub typ: FileType,
    pub readable: bool,
    pub writable: bool,
}

/// Which handlers a major device number has registered.
#[derive(Clone, Copy, Debug)]
pub struct Devsw {
    pub read: bool,
    pub write: bool,
}

/// Where a read or a write on an open file goes.
#[derive(Clone, Copy, Debug, PartialEq, Eq, Structural)]
pub enum FileOp {
    Pipe { pipe: usize },
    Inode { ip: usize, off: u32 },
    Device { major: u16 },
}

/// Size of part `i` of a write of `n` bytes cut into parts of at most `MAXWRITE` bytes.
pub open spec fn chunk(n: int, i: int) -> int {
    if n - i * MAXWRITE < MAXWRITE {
        n - i * MAXWRITE
    } else {
        MAXWRITE as int
    }
}

/// Number of parts of a write of `n` bytes.
pub open spec fn nchunks(n: int) -> int {
    (n + MAXWRITE - 1) / (MAXWRITE as int)
}

impl File {
    /// A file that refers to nothing yet.
    pub fn new(readable: bool, writable: bool) -> (r: File)
        ensures
            r.typ == FileType::Empty,
            r.readable == readable,
            r.writable == writable,
    {
        File { typ: FileType::Empty, readable, writable }
    }

    /// Where a read goes: fails on a file not open for reading, and on a device without
    /// a registered read handler.
    pub fn read(&self, devsw: &Vec<Devsw>) -> (r: Result<FileOp, ()>)
        requires
            devsw@.len() == NDEV,
            self.readable ==> !(self.typ is Empty),
        ensures
            !self.readable ==> r is Err,
            self.readable ==> match self.typ {
                FileType::Pipe { pipe } => r == Ok::<FileOp, ()>(FileOp::Pipe { pipe }),
                FileType::Inode { ip, off } => r == Ok::<FileOp, ()>(FileOp::Inode { ip, off }),
                FileType::Device { major, .. } => if (major as int) < NDEV && devsw@[major as int].read {
                    r == Ok::<FileOp, ()>(FileOp::Device { major })
                } else {
                    r is Err
                },
                FileType::Empty => false,
            },
    {
        if !self.readable {
            return Err(());
        }
        match self.typ {
            FileType::Pipe { pipe } => Ok(FileOp::Pipe { pipe }),
            FileType::Inode { ip, off } => Ok(FileOp::Inode { ip, off }),
            FileType::Device { major, .. } => {
                if (major as usize) < NDEV && devsw[major as usize].read {
                    Ok(FileOp::Device { major })
                } else {
                    Err(())
                }
            },
            FileType::Empty => Err(()),
        }
    }

    /// Where a write goes: fails on a file not open for writing, and on a device without
    /// a registered write handler.
    pub fn write(&self, devsw: &Vec<Devsw>) -> (r: Result<FileOp, ()>)
        requires
            devsw@.len() == NDEV,
            self.writable ==> !(self.typ is Empty),
        ensures
            !self.writable ==> r is Err,
            self.writable ==> match self.typ {
                FileType::Pipe { pipe } => r == Ok::<FileOp, ()>(FileOp::Pipe { pipe }),
                FileType::Inode { ip, off } => r == Ok::<FileOp, ()>(FileOp::Inode { ip, off }),
                FileType::Device { major, .. } => if (major as int) < NDEV && devsw@[major as int].write {
                    r == Ok::<FileOp, ()>(FileOp::Device { major })
                } else {
                    r is Err
                },
                FileType::Empty => false,
            },
    {
        if !self.writable {
            return Err(());
        }
        match self.typ {
            FileType::Pipe { pipe } => Ok(FileOp::Pipe { pipe }),
            FileType::Inode { ip, off } => Ok(FileOp::Inode { ip, off }),
            FileType::Device { major, .. } => {
                if (major as usize) < NDEV && devsw[major as usize].write {
                    Ok(FileOp::Device { major })
                } else {
                    Err(())
                }
            },
            FileType::Empty => Err(()),
        }
    }

    /// The inode whose metadata `fstat` reports; only inodes and devices have one.
    pub fn stat(&self) -> (r: Result<usize, ()>)
        ensures
            match self.typ {
                FileType::Inode { ip, .. } => r == Ok::<usize, ()>(ip),
                FileType::Device { ip, .. } => r == Ok::<usize, ()>(ip),
                _ => r is Err,
            },
    {
        match self.typ {
            FileType::Inode { ip, .. } => Ok(ip),
            FileType::Device { ip, .. } => Ok(ip),
            _ => Err(()),
        }
    }

    /// Moves the offset of an inode file past `v` bytes just read or written.
    pub fn advance(&mut self, v: u32)
        ensures
            final(self).readable == old(self).readable,
            final(self).writable == old(self).writable,
            match old(self).typ {
                FileType::Inode { ip, off } => final(self).typ == (FileType::Inode {
                    ip,
                    off: ((off + v) % 0x1_0000_0000) as u32,
                }),
                _ => final(self).typ == old(self).typ,
            },
    {
        match self.typ {
            FileType::Inode { ip, off } => {
                self.typ = FileType::Inode { ip, off: off.wrapping_add(v) };
            },
            _ => {},
        }
    }
}

/// Cuts a write of `n` bytes to an inode into parts of at most `MAXWRITE` bytes, each
/// written in a transaction of its own.
pub fn write_chunks(n: u32) -> (r: Vec<u32>)
    ensures
        r@.len() == nchunks(n as int),
        forall|i: int| 0 <= i < r@.len() ==> #[trigger] r@[i] == chunk(n as int, i),
        forall|i: int| 0 <= i < r@.len() ==> 0 < #[trigger] r@[i] <= MAXWRITE,
        n > MAXWRITE ==> r@.len() >= 2,
{
    let mut r: Vec<u32> = Vec::new();
    let mut done: u32 = 0;
    while done < n
        invariant
            done <= n,
            done as int == r@.len() * MAXWRITE || done == n,
            done < n ==> done as int == r@.len() * MAXWRITE,
            done == n ==> r@.len() == nchunks(n as int),
            forall|i: int| 0 <= i < r@.len() ==> #[trigger] r@[i] == chunk(n as int, i),
            forall|i: int| 0 <= i < r@.len() ==> 0 < #[trigger] r@[i] <= MAXWRITE,
            n > MAXWRITE && done == n ==> r@.len() >= 2,
        decreases n - done,
    {
        let part: u32 = if n - done < MAXWRITE as u32 { n - done } else { MAXWRITE as u32 };
        let ghost k = r@.len() as int;
        r.push(part);
        done = done + part;
        proof {
            if done == n {
                assert(nchunks(n as int) == k + 1) by {
                    vstd::arithmetic::div_mod::lemma_fundamental_div_mod_converse(
                        n as int + MAXWRITE - 1,
                        MAXWRITE as int,
                        k + 1,
                        part - 1,
                    );
                }
            }
        }
    }
    proof {
        if n == 0 {
            assert(nchunks(0) == 0);
        }
    }
    r
}

/// The table of open files: each slot holds a file and the number of descriptors that
/// refer to it; a slot whose count is zero is free.
pub struct FTableRef {
    pub files: Vec<File>,
    pub refs: Vec<u32>,
}

/// A counted reference to a slot of the file table.
#[derive(Clone, Copy, Debug)]
pub struct RcFile {
    pub idx: usize,
}

impl FTableRef {
    pub open spec fn wf(&self) -> bool {
        &&& self.files@.len() == NFILE
        &&& self.refs@.len() == NFILE
    }

    /// A table of free slots.
    pub fn new() -> (r: FTableRef)
        ensures
            r.wf(),
            forall|i: int| 0 <= i < NFILE ==> #[trigger] r.refs@[i] == 0,
    {
        let files = vec![File::new(false, false); NFILE];
        let refs = vec![0u32; NFILE];
        FTableRef { files, refs }
    }
}

impl RcFile {
    /// Stores a new file in the first free slot, with one reference. `None` when every
    /// slot is in use.
    pub fn allocate(table: &mut FTableRef, typ: FileType, readable: bool, writable: bool) -> (r: Option<RcFile>)
        requires
            old(table).wf(),
        ensures
            final(table).wf(),
            match r {
                None => {
                    &&& forall|i: int| 0 <= i < NFILE ==> #[trigger] old(table).refs@[i] > 0
                    &&& *final(table) == *old(table)
                },
                Some(f) => {
                    &&& f.idx < NFILE
                    &&& old(table).refs@[f.idx as int] == 0
                    &&& forall|i: int| 0 <= i < f.idx ==> #[trigger] old(table).refs@[i] > 0
                    &&& final(table).refs@ == old(table).refs@.update(f.idx as int, 1)
                    &&& final(table).files@ == old(table).files@.update(
                        f.idx as int,
                        File { typ, readable, writable },
                    )
                },
            },
    {
        let mut i: usize = 0;
        while i < NFILE
            invariant
                *table == *old(table),
                table.wf(),
                i <= NFILE,
                forall|k: int| 0 <= k < i ==> #[trigger] table.refs@[k] > 0,
            decreases NFILE - i,
        {
            if table.refs[i] == 0 {
                table.refs.set(i, 1);
                table.files.set(i, File { typ, readable, writable });
                return Some(RcFile { idx: i });
            }
            i += 1;
        }
        None
    }

    /// Another reference to the same file.
    pub fn dup(&self, table: &mut FTableRef) -> (r: RcFile)
        requires
            old(table).wf(),
            self.idx < NFILE,
            1 <= old(table).refs@[self.idx as int] < u32::MAX,
        ensures
            final(table).wf(),
            r.idx == self.idx,
            final(table).refs@ == old(table).refs@.update(
                self.idx as int,
                (old(table).refs@[self.idx as int] + 1) as u32,
            ),
            final(table).files@ == old(table).files@,
    {
        let n = table.refs[self.idx];
        table.refs.set(self.idx, n + 1);
        RcFile { idx: self.idx }
    }

    /// Drops this reference. The last one frees the slot and hands back the file, which
    /// the caller then releases: a pipe end closes, an inode is put inside a transaction.
    pub fn release(self, table: &mut FTableRef) -> (r: Option<File>)
        requires
            old(table).wf(),
            self.idx < NFILE,
            old(table).refs@[self.idx as int] >= 1,
        ensures
            final(table).wf(),
            final(table).files@ == old(table).files@,
            final(table).refs@ == old(table).refs@.update(
                self.idx as int,
                (old(table).refs@[self.idx as int] - 1) as u32,
            ),
            old(table).refs@[self.idx as int] == 1 ==> r == Some(old(table).files@[self.idx as int]),
            old(table).refs@[self.idx as int] > 1 ==> r is None,
    {
        let n = table.refs[self.idx];
        table.refs.set(self.idx, n - 1);
        if n == 1 {
            Some(table.files[self.idx])
        } else {
            None
        }
    }
}

} // verus!

//! Releasing what an open file held once its last reference is dropped: a pipe end is
//! closed; an inode loses a reference, and the last reference to an inode that no
//! directory links frees it on disk inside the current transaction.
use vstd::prelude::*;

use crate::dinode::{dinode_off, holds_dinode, iupdate};
use crate::file::{File, FileType};
use crate::fs::{allocated, FileSystem, FsTransaction};
use crate::inode::{Inode, Itable};
use crate::inode_io::{addr_of, itrunc, nblocks, owns};
use crate::param::{IPB, NDIRECT, NINODE};
use crate::pipe::Pipe;

verus! {

/// Drops a reference to entry `i` of the inode table. The last reference to a valid inode
/// that no directory links truncates it, freeing its blocks, clears its type, and writes
/// it to the inode table; `false` when the transaction ran out of room first.
pub fn iput(t: &mut Itable, i: usize, fs: &mut FileSystem, tx: &FsTransaction) -> (done: bool)
    requires
        old(t).wf(),
        i < NINODE,
        old(t).inodes@[i as int].ref_0 >= 1,
        old(t).inodes@[i as int].lock.locked == 0,
        old(fs).wf(),
        old(fs).log.outstanding >= 1,
        old(t).inodes@[i as int].inum < old(fs).sb().ninodes,
        old(t).inodes@[i as int].inner.valid ==> owns(
            old(fs).cache@,
            old(fs).sb(),
            old(t).inodes@[i as int].inner,
            nblocks(old(t).inodes@[i as int].inner),
        ),
    ensures
        final(t).wf(),
        final(fs).wf(),
        final(fs).superblock == old(fs).superblock,
        final(fs).log.outstanding == old(fs).log.outstanding,
        final(t).inodes@[i as int].ref_0 == old(t).inodes@[i as int].ref_0 - 1,
        !done ==> !final(fs).room(2),
        ({
            let e = old(t).inodes@[i as int];
            let last = e.ref_0 == 1 && e.inner.valid && e.inner.nlink == 0;
            &&& !last ==> done && final(fs).cache@ == old(fs).cache@ && final(t).inodes@[i as int].inner == e.inner
            &&& last && done ==> {
                &&& final(t).inodes@[i as int].inner.size == 0
                &&& final(t).inodes@[i as int].inner.typ == 0
                &&& forall|bn: int| 0 <= bn < nblocks(e.inner) ==> !allocated(
                    final(fs).cache@,
                    final(fs).sb(),
                    #[trigger] addr_of(old(fs).cache@, e.inner, bn),
                )
                &&& e.inner.addrs[NDIRECT as int] != 0 ==> !allocated(
                    final(fs).cache@,
                    final(fs).sb(),
                    e.inner.addrs[NDIRECT as int] as int,
                )
                &&& holds_dinode(
                    final(fs).cache@[final(fs).sb().inodestart + e.inum as int / (IPB as int)],
                    dinode_off(e.inum),
                    final(t).inodes@[i as int].inner,
                )
            }
        }),
{
    let e = &t.inodes[i];
    let last = e.put_frees();
    let mut inner = e.inner;
    let inum = e.inum;
    let mut done = true;
    if last {
        done = itrunc(&mut inner, fs, tx);
        if done {
            inner.typ = 0;
            let len = fs.log.len();
            if len + 1 <= crate::param::LOGSIZE && (len as u64) + 1 < fs.log.size as u64 {
                iupdate(&inner, fs, tx, inum);
            } else {
                done = false;
            }
        }
    }
    let e = &t.inodes[i];
    let ip = Inode { dev: e.dev, inum: e.inum, ref_0: e.ref_0 - 1, lock: e.lock, inner };
    t.inodes.set(i, ip);
    proof {
        assert forall|j: int| 0 <= j < NINODE implies #[trigger] t.inodes@[j].wf() by {
            assert(old(t).inodes@[j].wf());
        }
        assert forall|a: int, b: int|
            0 <= a < NINODE && 0 <= b < NINODE && a != b && #[trigger] t.inodes@[a].ref_0 > 0
                && #[trigger] t.inodes@[b].ref_0 > 0 implies !(t.inodes@[a].dev == t.inodes@[b].dev
                && t.inodes@[a].inum == t.inodes@[b].inum) by {
            assert(old(t).inodes@[a].ref_0 > 0);
            assert(old(t).inodes@[b].ref_0 > 0);
        }
    }
    done
}

/// Releases what an open file held after its last reference was dropped: a pipe end is
/// closed (`true` when the pipe then has no open end and can be freed); an inode or device
/// file puts its inode, inside the transaction `tx` (`false` when the transaction ran out
/// of room before an unlinked inode was freed).
pub fn close_file(
    f: File,
    pipes: &mut Vec<Pipe>,
    t: &mut Itable,
    fs: &mut FileSystem,
    tx: &FsTransaction,
) -> (r: bool)
    requires
        old(t).wf(),
        old(fs).wf(),
        old(fs).log.outstanding >= 1,
        match f.typ {
            FileType::Pipe { pipe } => pipe < old(pipes)@.len(),
            FileType::Inode { ip, .. } | FileType::Device { ip, .. } => {
                &&& ip < NINODE
                &&& old(t).inodes@[ip as int].ref_0 >= 1
                &&& old(t).inodes@[ip as int].lock.locked == 0
                &&& old(t).inodes@[ip as int].inum < old(fs).sb().ninodes
                &&& old(t).inodes@[ip as int].inner.valid ==> owns(
                    old(fs).cache@,
                    old(fs).sb(),
                    old(t).inodes@[ip as int].inner,
                    nblocks(old(t).inodes@[ip as int].inner),
                )
            },
            FileType::Empty => true,
        },
    ensures
        final(t).wf(),
        final(fs).wf(),
        final(fs).log.outstanding == old(fs).log.outstanding,
        final(pipes)@.len() == old(pipes)@.len(),
        match f.typ {
            FileType::Pipe { pipe } => {
                &&& final(pipes)@[pipe as int].contents() == old(pipes)@[pipe as int].contents()
                &&& final(pipes)@[pipe as int].write_open == (old(pipes)@[pipe as int].write_open && !f.writable)
                &&& final(pipes)@[pipe as int].read_open == (old(pipes)@[pipe as int].read_open && f.writable)
                &&& r == (!final(pipes)@[pipe as int].read_open && !final(pipes)@[pipe as int].write_open)
                &&& forall|j: int| 0 <= j < old(pipes)@.len() && j != pipe ==> #[trigger] final(pipes)@[j] == old(pipes)@[j]
                &&& *final(t) == *old(t)
                &&& *final(fs) == *old(fs)
            },
            FileType::Inode { ip, .. } | FileType::Device { ip, .. } => {
                &&& final(t).inodes@[ip as int].ref_0 == old(t).inodes@[ip as int].ref_0 - 1
                &&& !r ==> !final(fs).room(2)
                &&& final(pipes)@ == old(pipes)@
            },
            FileType::Empty => r && *final(t) == *old(t) && *final(fs) == *old(fs) && final(pipes)@ == old(pipes)@,
        },
{
    match f.typ {
        FileType::Pipe { pipe } => {
            let mut p = pipes.remove(pipe);
            let both = p.close(f.writable);
            pipes.insert(pipe, p);
            assert forall|j: int| 0 <= j < old(pipes)@.len() && j != pipe implies #[trigger] pipes@[j] == old(pipes)@[j] by {}
            both
        },
        FileType::Inode { ip, .. } => iput(t, ip, fs, tx),
        FileType::Device { ip, .. } => iput(t, ip, fs, tx),
        FileType::Empty => true,
    }
}

} // verus!

//! In-memory inodes: a reference count and a sleep-locked copy of the on-disk inode that
//! is read from disk the first time the lock is taken.
use vstd::prelude::*;

use crate::dinode::{dinode_off, disk_type, holds_dinode, iload};
use crate::fs::FileSystem;
use crate::param::{IPB, NINODE};
use crate::sleeplock::{acquiresleep, releasesleep, Sleeplock};

verus! {

/// The sleep-locked part of an inode: a copy of the on-disk inode.
#[derive(Clone, Copy, Debug)]
pub struct InodeInner {
    /// Read from disk yet?
    pub valid: bool,
    pub typ: i16,
    pub major: u16,
    pub minor: u16,
    pub nlink: i16,
    pub size: u32,
    pub addrs: [u32; 13],
}

/// An in-memory inode.
pub struct Inode {
    pub dev: u32,
    pub inum: u32,
    /// Number of handles to this entry.
    pub ref_0: i32,
    pub lock: Sleeplock,
    pub inner: InodeInner,
}

/// Proof that the current process holds an inode's sleep lock.
pub struct InodeGuard {
    pub inum: u32,
    pub pid: i32,
}

impl InodeGuard {
    pub fn new(inum: u32, pid: i32) -> (r: InodeGuard)
        ensures
            r.inum == inum,
            r.pid == pid,
    {
        InodeGuard { inum, pid }
    }
}

impl InodeInner {
    /// A copy not yet read from disk.
    pub fn empty() -> (r: InodeInner)
        ensures
            !r.valid,
            r.typ == 0,
            r.size == 0,
    {
        InodeInner { valid: false, typ: 0, major: 0, minor: 0, nlink: 0, size: 0, addrs: [0u32; 13] }
    }
}

impl Inode {
    /// An unused entry is not locked; a held lock guards a copy read from disk.
    pub open spec fn wf(&self) -> bool {
        &&& self.ref_0 >= 0
        &&& self.ref_0 == 0 ==> self.lock.locked == 0
        &&& self.lock.locked != 0 ==> self.inner.valid
    }

    /// An entry for inode `inum` of device `dev`, with one reference, not read from disk.
    pub fn new(dev: u32, inum: u32) -> (r: Inode)
        ensures
            r.wf(),
            r.dev == dev,
            r.inum == inum,
            r.ref_0 == 1,
            r.lock.locked == 0,
            !r.inner.valid,
    {
        Inode { dev, inum, ref_0: 1, lock: Sleeplock::zeroed(), inner: InodeInner::empty() }
    }

    /// Takes the sleep lock for process `pid`. When the copy is not yet valid, the inode is
    /// read from the inode table in the cache of `fs`; a free inode there would be a
    /// corrupt file system. `None` means the caller must sleep and try again.
    pub fn lock(&mut self, pid: i32, fs: &FileSystem) -> (r: Option<InodeGuard>)
        requires
            old(self).wf(),
            old(self).ref_0 >= 1,
            fs.wf(),
            old(self).inum < fs.sb().ninodes,
            !old(self).inner.valid ==> disk_type(fs.cache@, fs.sb(), old(self).inum as int) != 0,
        ensures
            final(self).wf(),
            final(self).ref_0 == old(self).ref_0,
            r is Some == (old(self).lock.locked == 0),
            r is Some ==> {
                &&& final(self).inner.valid
                &&& final(self).lock.locked != 0
                &&& final(self).lock.pid == pid
                &&& r->Some_0.inum == old(self).inum
                &&& old(self).inner.valid ==> final(self).inner == old(self).inner
                &&& !old(self).inner.valid ==> holds_dinode(
                    fs.cache@[fs.sb().inodestart + old(self).inum as int / (IPB as int)],
                    dinode_off(old(self).inum),
                    final(self).inner,
                )
            },
            r is None ==> *final(self) == *old(self),
    {
        if !acquiresleep(&mut self.lock, pid) {
            return None;
        }
        if !self.inner.valid {
            self.inner = iload(fs, self.inum);
        }
        Some(InodeGuard::new(self.inum, pid))
    }

    /// Releases the sleep lock.
    pub fn unlock(&mut self, guard: InodeGuard)
        requires
            old(self).wf(),
            old(self).lock.locked != 0,
        ensures
            final(self).wf(),
            final(self).lock.locked == 0,
            final(self).inner == old(self).inner,
            final(self).ref_0 == old(self).ref_0,
    {
        releasesleep(&mut self.lock);
    }

    /// Adds a reference.
    pub fn dup(&mut self)
        requires
            old(self).wf(),
            old(self).ref_0 < i32::MAX,
        ensures
            final(self).wf(),
            final(self).ref_0 == old(self).ref_0 + 1,
            final(self).inner == old(self).inner,
            final(self).lock == old(self).lock,
    {
        self.ref_0 = self.ref_0 + 1;
    }

    /// Whether dropping this reference must first free the inode on disk: it is the last
    /// reference to a valid inode that no directory links.
    pub fn put_frees(&self) -> (r: bool)
        ensures
            r == (self.ref_0 == 1 && self.inner.valid && self.inner.nlink == 0),
    {
        self.ref_0 == 1 && self.inner.valid && self.inner.nlink == 0
    }

    /// Drops a reference that does not hold the lock. The entry may be reused once the
    /// count reaches zero.
    pub fn put(&mut self)
        requires
            old(self).wf(),
            old(self).ref_0 >= 1,
            old(self).ref_0 == 1 ==> old(self).lock.locked == 0,
        ensures
            final(self).wf(),
            final(self).ref_0 == old(self).ref_0 - 1,
            final(self).inner == old(self).inner,
            final(self).lock == old(self).lock,
    {
        self.ref_0 = self.ref_0 - 1;
    }
}

/// The inodes held in memory. An entry whose count is zero is free for reuse; no two
/// entries in use stand for the same inode.
pub struct Itable {
    pub inodes: Vec<Inode>,
}

impl Itable {
    /// Entry `i` is in use and stands for inode `inum` of device `dev`.
    pub open spec fn holds(&self, i: int, dev: u32, inum: u32) -> bool {
        self.inodes@[i].ref_0 > 0 && self.inodes@[i].dev == dev && self.inodes@[i].inum == inum
    }

    pub open spec fn wf(&self) -> bool {
        &&& self.inodes@.len() == NINODE
        &&& forall|i: int| 0 <= i < NINODE ==> #[trigger] self.inodes@[i].wf()
        &&& forall|i: int, j: int|
            0 <= i < NINODE && 0 <= j < NINODE && i != j && #[trigger] self.inodes@[i].ref_0 > 0
                && #[trigger] self.inodes@[j].ref_0 > 0 ==> !(self.inodes@[i].dev == self.inodes@[j].dev
                && self.inodes@[i].inum == self.inodes@[j].inum)
    }

    /// A table of free entries.
    pub fn new() -> (r: Itable)
        ensures
            r.wf(),
            forall|i: int| 0 <= i < NINODE ==> #[trigger] r.inodes@[i].ref_0 == 0,
    {
        let mut inodes: Vec<Inode> = Vec::new();
        let mut i: usize = 0;
        while i < NINODE
            invariant
                i <= NINODE,
                inodes@.len() == i,
                forall|k: int| 0 <= k < i ==> #[trigger] inodes@[k].ref_0 == 0 && inodes@[k].wf(),
            decreases NINODE - i,
        {
            let mut ip = Inode::new(0, 0);
            ip.ref_0 = 0;
            inodes.push(ip);
            i += 1;
        }
        Itable { inodes }
    }

    /// An entry for inode `inum` of device `dev`, with one more reference: the entry that
    /// already holds it, else the first free one, which then holds a copy not yet read from
    /// disk. `None` when every entry is in use for other inodes, or the count is at its
    /// limit.
    pub fn get(&mut self, dev: u32, inum: u32) -> (r: Option<usize>)
        requires
            old(self).wf(),
        ensures
            final(self).wf(),
            (exists|j: int| 0 <= j < NINODE && old(self).holds(j, dev, inum)) ==> match r {
                Some(i) => old(self).holds(i as int, dev, inum) && (final(self).inodes@ == old(self).inodes@.update(
                    i as int,
                    Inode { ref_0: (old(self).inodes@[i as int].ref_0 + 1) as i32, ..old(self).inodes@[i as int] },
                )),
                None => old(self).inodes@[choose|j: int| 0 <= j < NINODE && old(self).holds(j, dev, inum)].ref_0 == i32::MAX
                    && final(self).inodes@ == old(self).inodes@,
            },
            !(exists|j: int| 0 <= j < NINODE && old(self).holds(j, dev, inum)) ==> match r {
                Some(i) => {
                    &&& i < NINODE
                    &&& old(self).inodes@[i as int].ref_0 == 0
                    &&& forall|j: int| 0 <= j < i ==> #[trigger] old(self).inodes@[j].ref_0 > 0
                    &&& final(self).holds(i as int, dev, inum)
                    &&& final(self).inodes@[i as int].ref_0 == 1
                    &&& !final(self).inodes@[i as int].inner.valid
                    &&& forall|j: int| 0 <= j < NINODE && j != i ==> #[trigger] final(self).inodes@[j] == old(self).inodes@[j]
                },
                None => {
                    &&& forall|j: int| 0 <= j < NINODE ==> #[trigger] old(self).inodes@[j].ref_0 > 0
                    &&& final(self).inodes@ == old(self).inodes@
                },
            },
    {
        let mut i: usize = 0;
        while i < NINODE
            invariant
                *self == *old(self),
                self.wf(),
                i <= NINODE,
                forall|j: int| 0 <= j < i ==> !#[trigger] self.holds(j, dev, inum),
            decreases NINODE - i,
        {
            let e = &self.inodes[i];
            if e.ref_0 > 0 && e.dev == dev && e.inum == inum {
                assert(old(self).holds(i as int, dev, inum));
                if e.ref_0 == i32::MAX {
                    proof {
                        let c = choose|j: int| 0 <= j < NINODE && old(self).holds(j, dev, inum);
                        if c != i {
                            assert(old(self).inodes@[c].ref_0 > 0 && old(self).inodes@[i as int].ref_0 > 0);
                        }
                    }
                    return None;
                }
                let mut ip = Inode { dev: e.dev, inum: e.inum, ref_0: e.ref_0 + 1, lock: e.lock, inner: e.inner };
                self.inodes.set(i, ip);
                proof {
                    assert forall|a: int, b: int|
                        0 <= a < NINODE && 0 <= b < NINODE && a != b && #[trigger] self.inodes@[a].ref_0 > 0
                            && #[trigger] self.inodes@[b].ref_0 > 0 implies !(self.inodes@[a].dev == self.inodes@[b].dev
                            && self.inodes@[a].inum == self.inodes@[b].inum) by {
                        assert(old(self).inodes@[a].ref_0 > 0);
                        assert(old(self).inodes@[b].ref_0 > 0);
                    }
                    assert(self.inodes@ =~= old(self).inodes@.update(
                        i as int,
                        Inode { ref_0: (old(self).inodes@[i as int].ref_0 + 1) as i32, ..old(self).inodes@[i as int] },
                    ));
                    assert forall|j: int| 0 <= j < NINODE implies #[trigger] self.inodes@[j].wf() by {
                        assert(old(self).inodes@[j].wf());
                    }
                }
                return Some(i);
            }
            i += 1;
        }
        let mut k: usize = 0;
        while k < NINODE
            invariant
                *self == *old(self),
                self.wf(),
                k <= NINODE,
                forall|j: int| 0 <= j < NINODE ==> !#[trigger] self.holds(j, dev, inum),
                forall|j: int| 0 <= j < k ==> #[trigger] self.inodes@[j].ref_0 > 0,
            decreases NINODE - k,
        {
            assert(self.inodes@[k as int].wf());
            if self.inodes[k].ref_0 == 0 {
                self.inodes.set(k, Inode::new(dev, inum));
                proof {
                    assert forall|a: int, b: int|
                        0 <= a < NINODE && 0 <= b < NINODE && a != b && #[trigger] self.inodes@[a].ref_0 > 0
                            && #[trigger] self.inodes@[b].ref_0 > 0 implies !(self.inodes@[a].dev == self.inodes@[b].dev
                            && self.inodes@[a].inum == self.inodes@[b].inum) by {
                        if a == k {
                            assert(!old(self).holds(b, dev, inum));
                        } else if b == k {
                            assert(!old(self).holds(a, dev, inum));
                        }
                    }
                    assert forall|j: int| 0 <= j < NINODE implies #[trigger] self.inodes@[j].wf() by {
                        if j != k {
                            assert(old(self).inodes@[j].wf());
                        }
                    }
                }
                return Some(k);
            }
            k += 1;
        }
        None
    }

    /// Drops a reference to entry `i`. `true` when it was the last reference to a valid
    /// inode that no directory links: the caller then frees the inode on disk (truncate it
    /// and clear its type) inside a transaction.
    pub fn put(&mut self, i: usize) -> (last: bool)
        requires
            old(self).wf(),
            i < NINODE,
            old(self).inodes@[i as int].ref_0 >= 1,
            old(self).inodes@[i as int].ref_0 == 1 ==> old(self).inodes@[i as int].lock.locked == 0,
        ensures
            final(self).wf(),
            last == (old(self).inodes@[i as int].ref_0 == 1 && old(self).inodes@[i as int].inner.valid
                && old(self).inodes@[i as int].inner.nlink == 0),
            final(self).inodes@ == old(self).inodes@.update(
                i as int,
                Inode { ref_0: (old(self).inodes@[i as int].ref_0 - 1) as i32, ..old(self).inodes@[i as int] },
            ),
    {
        let e = &self.inodes[i];
        let last = e.put_frees();
        let ip = Inode { dev: e.dev, inum: e.inum, ref_0: e.ref_0 - 1, lock: e.lock, inner: e.inner };
        self.inodes.set(i, ip);
        proof {
            assert(self.inodes@ =~= old(self).inodes@.update(
                i as int,
                Inode { ref_0: (old(self).inodes@[i as int].ref_0 - 1) as i32, ..old(self).inodes@[i as int] },
            ));
            assert forall|j: int| 0 <= j < NINODE implies #[trigger] self.inodes@[j].wf() by {
                assert(old(self).inodes@[j].wf());
            }
            assert forall|a: int, b: int|
                0 <= a < NINODE && 0 <= b < NINODE && a != b && #[trigger] self.inodes@[a].ref_0 > 0
                    && #[trigger] self.inodes@[b].ref_0 > 0 implies !(self.inodes@[a].dev == self.inodes@[b].dev
                    && self.inodes@[a].inum == self.inodes@[b].inum) by {
                assert(old(self).inodes@[a].ref_0 > 0);
                assert(old(self).inodes@[b].ref_0 > 0);
            }
        }
        last
    }
}

} // verus!

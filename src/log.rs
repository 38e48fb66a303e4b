//! A physical redo log that groups the block writes of concurrent operations into one
//! atomic transaction.
//!
//! On disk the log is a header block at `start` that records the block numbers of a
//! committed transaction, followed by one block of contents for each of them.
use vstd::prelude::*;

use arrayvec::ArrayVec;

use crate::disk::{blocks_wf, store_u32, Disk};
use crate::logspec::{commit_ok, home_blocks, lemma_installed_wf, lemma_stages_wf, recovered, committed, distinct, head_ok, head_blocks, head_written, header_words, installed, lemma_header_decode, lemma_installed, log_copied};
use crate::param::{BSIZE, LOGSIZE, MAXOPBLOCKS};

verus! {

#[verifier::external_type_specification]
#[verifier::external_body]
#[verifier::reject_recursive_types(T)]
pub struct ExArrayVec<T, const CAP: usize>(ArrayVec<T, CAP>);

/// The block numbers held by a list of recorded blocks, in order.
pub uninterp spec fn logged(v: ArrayVec<u32, LOGSIZE>) -> Seq<u32>;

/// Relies on ArrayVec::new: a new list is empty.
#[verifier::external_body]
fn list_new() -> (r: ArrayVec<u32, LOGSIZE>)
    ensures
        logged(r) == Seq::<u32>::empty(),
{
    ArrayVec::new()
}

/// Relies on ArrayVec::len: the number of elements, never above the capacity.
#[verifier::external_body]
fn list_len(v: &ArrayVec<u32, LOGSIZE>) -> (r: usize)
    ensures
        r == logged(*v).len(),
        r <= LOGSIZE,
{
    v.len()
}

/// Relies on indexing an ArrayVec through its slice: element `i`.
#[verifier::external_body]
fn list_get(v: &ArrayVec<u32, LOGSIZE>, i: usize) -> (r: u32)
    requires
        i < logged(*v).len(),
    ensures
        r == logged(*v)[i as int],
{
    v.as_slice()[i]
}

/// Relies on ArrayVec::push: appends at the end; it panics only on a full list.
#[verifier::external_body]
fn list_push(v: &mut ArrayVec<u32, LOGSIZE>, x: u32)
    requires
        logged(*old(v)).len() < LOGSIZE,
    ensures
        logged(*final(v)) == logged(*old(v)).push(x),
{
    v.push(x)
}

/// Relies on ArrayVec::clear: removes every element.
#[verifier::external_body]
fn list_clear(v: &mut ArrayVec<u32, LOGSIZE>)
    ensures
        logged(*final(v)) == Seq::<u32>::empty(),
{
    v.clear()
}

/// The state of the log: where it lies on the device, the operations under way, and the
/// blocks written by the current transaction.
pub struct LogInner {
    pub dev: u32,
    pub start: u32,
    pub size: u32,
    /// Number of operations under way.
    pub outstanding: i32,
    /// A commit is running; no operation may start.
    pub committing: bool,
    /// Block numbers written by the current transaction, in order of first write.
    pub bufs: ArrayVec<u32, LOGSIZE>,
}

impl LogInner {
    /// Block numbers written by the current transaction.
    pub open spec fn blocks(&self) -> Seq<u32> {
        logged(self.bufs)
    }

    pub open spec fn wf(&self) -> bool {
        &&& self.outstanding >= 0
        &&& self.committing ==> self.outstanding == 0
        &&& distinct(self.blocks())
        &&& self.blocks().len() <= LOGSIZE
        &&& self.blocks().len() + 1 <= self.size
    }

    /// The layout that writing the log of this transaction onto `d` from cache `c` needs.
    pub open spec fn fits(&self, d: Seq<Seq<u8>>, c: Seq<Seq<u8>>) -> bool {
        commit_ok(d, c, self.start as int, self.size as int, self.blocks())
    }

    /// An idle log over `size` blocks from `start`.
    pub fn new(dev: u32, start: u32, size: u32) -> (r: LogInner)
        requires
            size >= 1,
        ensures
            r.wf(),
            r.dev == dev,
            r.start == start,
            r.size == size,
            r.outstanding == 0,
            !r.committing,
            r.blocks() == Seq::<u32>::empty(),
    {
        LogInner { dev, start, size, outstanding: 0, committing: false, bufs: list_new() }
    }

    /// Number of blocks written by the current transaction.
    pub fn len(&self) -> (r: usize)
        ensures
            r == self.blocks().len(),
    {
        list_len(&self.bufs)
    }

    /// Block number `i` of the current transaction.
    pub fn block(&self, i: usize) -> (r: u32)
        requires
            i < self.blocks().len(),
        ensures
            r == self.blocks()[i as int],
    {
        list_get(&self.bufs, i)
    }

    /// Whether a new operation may start now. It may not while a commit runs, nor when the
    /// log might not hold the worst-case writes of every operation under way and the new one.
    pub fn begin_op(&mut self) -> (admitted: bool)
        requires
            old(self).wf(),
        ensures
            final(self).wf(),
            admitted == !(old(self).committing || old(self).blocks().len() + (old(self).outstanding
                + 1) * MAXOPBLOCKS > LOGSIZE),
            final(self).outstanding == if admitted {
                old(self).outstanding + 1
            } else {
                old(self).outstanding as int
            },
            final(self).blocks() == old(self).blocks(),
            final(self).committing == old(self).committing,
            final(self).dev == old(self).dev,
            final(self).start == old(self).start,
            final(self).size == old(self).size,
    {
        let n = self.len();
        let o = self.outstanding;
        if self.committing || n as i64 + (o as i64 + 1) * (MAXOPBLOCKS as i64) > LOGSIZE as i64 {
            false
        } else {
            self.outstanding = o + 1;
            true
        }
    }

    /// Records that block `b` belongs to the current transaction. A block already recorded
    /// keeps its place: the transaction carries its latest contents.
    pub fn write(&mut self, b: u32)
        requires
            old(self).wf(),
            old(self).outstanding >= 1,
            old(self).blocks().len() < LOGSIZE,
            old(self).blocks().len() + 1 < old(self).size,
        ensures
            final(self).wf(),
            final(self).blocks() == if old(self).blocks().contains(b) {
                old(self).blocks()
            } else {
                old(self).blocks().push(b)
            },
            final(self).dev == old(self).dev,
            final(self).start == old(self).start,
            final(self).size == old(self).size,
            final(self).outstanding == old(self).outstanding,
            final(self).committing == old(self).committing,
    {
        let n = self.len();
        let mut i: usize = 0;
        while i < n
            invariant
                *self == *old(self),
                self.wf(),
                self.outstanding >= 1,
                self.blocks().len() < LOGSIZE,
                self.blocks().len() + 1 < self.size,
                n == self.blocks().len(),
                i <= n,
                forall|k: int| 0 <= k < i ==> self.blocks()[k] != b,
            decreases n - i,
        {
            if self.block(i) == b {
                assert(self.blocks().contains(b)) by {
                    assert(self.blocks()[i as int] == b);
                }
                return;
            }
            i += 1;
        }
        assert(!self.blocks().contains(b));
        list_push(&mut self.bufs, b);
        assert forall|x: int, y: int|
            0 <= x < self.blocks().len() && 0 <= y < self.blocks().len() && x != y implies self.blocks()[x]
            != self.blocks()[y] by {
            if x < n && y < n {
                assert(old(self).blocks()[x] != old(self).blocks()[y]);
            }
        }
    }

    /// Copies each recorded block from the cache into its slot of the log.
    pub fn write_log(&self, disk: &mut Disk, cache: &Disk)
        requires
            self.wf(),
            self.fits(old(disk)@, cache@),
        ensures
            final(disk)@ == log_copied(
                old(disk)@,
                cache@,
                self.start as int,
                self.blocks(),
                self.blocks().len() as int,
            ),
    {
        let n = self.len();
        let ghost d0 = disk@;
        let ghost bs = self.blocks();
        let ghost st = self.start as int;
        let nb = disk.num_blocks();
        let mut i: usize = 0;
        assert(disk@ =~= log_copied(d0, cache@, st, bs, 0));
        while i < n
            invariant
                nb == disk@.len() == d0.len(),
                n == bs.len(),
                bs == self.blocks(),
                st == self.start,
                i <= n,
                self.fits(d0, cache@),
                disk@ == log_copied(d0, cache@, st, bs, i as int),
            decreases n - i,
        {
            let b = self.block(i);
            let data = cache.read(b as usize);
            disk.write(self.start as usize + 1 + i, data);
            i += 1;
            assert(disk@ =~= log_copied(d0, cache@, st, bs, i as int));
        }
    }

    /// Writes the header: the number of recorded blocks and their block numbers. With at
    /// least one block recorded, this single block write commits the transaction.
    pub fn write_head(&self, disk: &mut Disk)
        requires
            self.wf(),
            blocks_wf(old(disk)@),
            self.start as int + self.size as int <= old(disk)@.len(),
        ensures
            final(disk)@ == head_written(old(disk)@, self.start as int, self.blocks()),
            blocks_wf(final(disk)@),
    {
        let ghost bs = self.blocks();
        let s = self.start as usize;
        let mut h = disk.read(s);
        let ghost h0 = h@;
        let n = self.len();
        let mut i: usize = 0;
        while i < n
            invariant
                n == bs.len() <= LOGSIZE,
                bs == self.blocks(),
                i <= n,
                h@ == header_words(h0, bs, i as int),
                h@.len() == BSIZE,
            decreases n - i,
        {
            let b = self.block(i);
            proof {
                crate::disk::lemma_put_get(h@, 4 * (i + 1), b, 0);
            }
            store_u32(&mut h, 4 * (i + 1), b);
            i += 1;
        }
        store_u32(&mut h, 0, n as u32);
        disk.write(s, h);
        proof {
            lemma_header_decode(old(disk)@, self.start as int, bs);
            assert forall|x: int| 0 <= x < disk@.len() implies #[trigger] disk@[x].len() == BSIZE by {}
        }
    }

    /// Copies each committed block from its log slot to its home block, then forgets the
    /// recorded blocks.
    pub fn install_trans(&mut self, disk: &mut Disk)
        requires
            old(self).wf(),
            blocks_wf(old(disk)@),
            old(self).start as int + old(self).size as int <= old(disk)@.len(),
            home_blocks(old(self).blocks(), old(disk)@.len() as int, old(self).start as int, old(self).size as int),
        ensures
            final(disk)@ == installed(
                old(disk)@,
                old(self).start as int,
                old(self).blocks(),
                old(self).blocks().len() as int,
            ),
            final(disk)@.len() == old(disk)@.len(),
            blocks_wf(final(disk)@),
            final(self).wf(),
            final(self).blocks() == Seq::<u32>::empty(),
            final(self).dev == old(self).dev,
            final(self).start == old(self).start,
            final(self).size == old(self).size,
            final(self).outstanding == old(self).outstanding,
            final(self).committing == old(self).committing,
    {
        let ghost d0 = disk@;
        let ghost bs = self.blocks();
        let ghost st = self.start as int;
        let ghost sz = self.size as int;
        let nb = disk.num_blocks();
        let n = self.len();
        let mut i: usize = 0;
        while i < n
            invariant
                *self == *old(self),
                self.wf(),
                n == bs.len(),
                bs == self.blocks(),
                st == self.start,
                sz == self.size,
                st + sz <= d0.len(),
                blocks_wf(d0),
                home_blocks(bs, d0.len() as int, st, sz),
                i <= n,
                nb == disk@.len() == d0.len(),
                disk@ == installed(d0, st, bs, i as int),
            decreases n - i,
        {
            let b = self.block(i);
            proof {
                lemma_installed(d0, st, sz, bs, i as int);
                assert(forall|k: int| 0 <= k < i ==> bs[k] != st + 1 + i);
            }
            let data = disk.read(self.start as usize + 1 + i);
            disk.write(b as usize, data);
            i += 1;
        }
        proof {
            lemma_installed_wf(d0, st, sz, bs, n as int);
        }
        list_clear(&mut self.bufs);
    }

    /// Reads the header from the device into the list of recorded blocks.
    pub fn read_head(&mut self, disk: &Disk)
        requires
            old(self).wf(),
            old(self).blocks() == Seq::<u32>::empty(),
            blocks_wf(disk@),
            old(self).start as int + old(self).size as int <= disk@.len(),
            head_ok(disk@, old(self).start as int, old(self).size as int),
        ensures
            final(self).wf(),
            final(self).blocks() == head_blocks(disk@, old(self).start as int),
            final(self).dev == old(self).dev,
            final(self).start == old(self).start,
            final(self).size == old(self).size,
            final(self).outstanding == old(self).outstanding,
            final(self).committing == old(self).committing,
    {
        let ghost hb = head_blocks(disk@, self.start as int);
        let s = self.start as usize;
        let n = disk.read_u32(s, 0);
        let mut i: u32 = 0;
        while i < n
            invariant
                n == hb.len() <= LOGSIZE,
                hb == head_blocks(disk@, self.start as int),
                head_ok(disk@, self.start as int, self.size as int),
                s == self.start,
                s < disk@.len(),
                blocks_wf(disk@),
                i <= n,
                self.blocks() == hb.subrange(0, i as int),
                self.dev == old(self).dev,
                self.start == old(self).start,
                self.size == old(self).size,
                self.outstanding == old(self).outstanding,
                self.committing == old(self).committing,
            decreases n - i,
        {
            let b = disk.read_u32(s, 4 * (i as usize + 1));
            list_push(&mut self.bufs, b);
            i += 1;
            assert(self.blocks() =~= hb.subrange(0, i as int));
        }
        assert(self.blocks() =~= hb);
    }

    /// Replays a transaction that was committed but not yet installed, then empties the log.
    /// Harmless on an empty log.
    pub fn recover_from_log(&mut self, disk: &mut Disk)
        requires
            old(self).wf(),
            old(self).blocks() == Seq::<u32>::empty(),
            blocks_wf(old(disk)@),
            old(self).start as int + old(self).size as int <= old(disk)@.len(),
            head_ok(old(disk)@, old(self).start as int, old(self).size as int),
        ensures
            final(disk)@ == recovered(old(disk)@, old(self).start as int),
            blocks_wf(final(disk)@),
            final(self).wf(),
            final(self).blocks() == Seq::<u32>::empty(),
            final(self).dev == old(self).dev,
            final(self).start == old(self).start,
            final(self).size == old(self).size,
            final(self).outstanding == old(self).outstanding,
            final(self).committing == old(self).committing,
    {
        self.read_head(disk);
        self.install_trans(disk);
        self.write_head(disk);
    }

    /// Commits the current transaction: log the blocks, write the header (the commit point),
    /// install the blocks at home, and empty the log.
    pub fn commit(&mut self, disk: &mut Disk, cache: &Disk)
        requires
            old(self).wf(),
            old(self).fits(old(disk)@, cache@),
        ensures
            final(disk)@ == committed(old(disk)@, cache@, old(self).start as int, old(self).blocks()),
            blocks_wf(final(disk)@),
            final(self).wf(),
            final(self).blocks() == Seq::<u32>::empty(),
            final(self).dev == old(self).dev,
            final(self).start == old(self).start,
            final(self).size == old(self).size,
            final(self).outstanding == old(self).outstanding,
            final(self).committing == old(self).committing,
    {
        let n = self.len();
        if n > 0 {
            let ghost d0 = disk@;
            let ghost bs = self.blocks();
            let ghost st = self.start as int;
            let ghost sz = self.size as int;
            self.write_log(disk, cache);
            proof {
                lemma_stages_wf(d0, cache@, st, sz, bs, n as int);
            }
            self.write_head(disk);
            self.install_trans(disk);
            self.write_head(disk);
        } else {
            list_clear(&mut self.bufs);
        }
    }

    /// Ends an operation. The last operation to end commits the transaction that all of
    /// them wrote; during the commit no operation may start.
    pub fn end_op(&mut self, disk: &mut Disk, cache: &Disk)
        requires
            old(self).wf(),
            old(self).outstanding >= 1,
            old(self).fits(old(disk)@, cache@),
        ensures
            final(self).wf(),
            !final(self).committing,
            final(self).outstanding == old(self).outstanding - 1,
            old(self).outstanding == 1 ==> final(self).blocks() == Seq::<u32>::empty() && final(disk)@
                == committed(old(disk)@, cache@, old(self).start as int, old(self).blocks()),
            old(self).outstanding > 1 ==> final(self).blocks() == old(self).blocks() && final(disk)@
                == old(disk)@,
            blocks_wf(final(disk)@),
            final(self).dev == old(self).dev,
            final(self).start == old(self).start,
            final(self).size == old(self).size,
    {
        self.outstanding = self.outstanding - 1;
        if self.outstanding == 0 {
            self.committing = true;
            self.commit(disk, cache);
            self.committing = false;
        }
    }
}

} // verus!

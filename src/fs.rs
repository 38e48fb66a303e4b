//! The file system's durable state: the superblock, the device, its block cache and the
//! log, with the bitmap allocator of data blocks.
use vstd::prelude::*;

use crate::disk::{blocks_wf, get_u32, lemma_le_zero, lemma_put_get, put_u32, store_u32, Disk};
use crate::log::LogInner;
use crate::logspec::{applied, committed, head_blocks, head_n, head_ok, home_blocks, in_log, lemma_commit_applies, lemma_recovered, recovered, same_home};
use crate::param::{BPB, BSIZE, IPB, LOGSIZE};

verus! {

/// Layout of a device, read from its block 1.
#[derive(Clone, Copy, Debug)]
pub struct Superblock {
    pub magic: u32,
    /// Size of the image in blocks.
    pub size: u32,
    /// Number of data blocks.
    pub nblocks: u32,
    pub ninodes: u32,
    /// Number of log blocks, header included.
    pub nlog: u32,
    pub logstart: u32,
    pub inodestart: u32,
    pub bmapstart: u32,
}

impl Superblock {
    /// First block after the bitmap.
    pub open spec fn data_start(&self) -> int {
        self.bmapstart + self.size as int / (BPB as int) + 1
    }

    /// Boot block, superblock, log, inodes and bitmap follow each other inside the image.
    pub open spec fn layout_ok(&self) -> bool {
        &&& 2 <= self.logstart
        &&& 2 <= self.nlog
        &&& self.logstart + self.nlog <= self.inodestart
        &&& self.inodestart + self.ninodes as int / (IPB as int) < self.bmapstart
        &&& self.ninodes <= 0x10000
        &&& self.data_start() <= self.size
    }

    /// Block of the inode table that holds inode `inum`.
    pub fn iblock(&self, inum: u32) -> (r: u32)
        requires
            self.layout_ok(),
            inum < self.ninodes,
        ensures
            r == self.inodestart + inum as int / (IPB as int),
            self.inodestart <= r < self.bmapstart,
    {
        proof {
            vstd::arithmetic::div_mod::lemma_div_is_ordered(inum as int, self.ninodes as int, IPB as int);
        }
        self.inodestart + inum / (IPB as u32)
    }

    /// Block of the bitmap that holds the bit of block `b`.
    pub fn bblock(&self, b: u32) -> (r: u32)
        requires
            self.layout_ok(),
            b < self.size,
        ensures
            r == self.bmapstart + b as int / (BPB as int),
            r < self.data_start(),
    {
        proof {
            vstd::arithmetic::div_mod::lemma_div_is_ordered(b as int, self.size as int, BPB as int);
        }
        self.bmapstart + b / (BPB as u32)
    }
}

/// The superblock stored in a block: eight little-endian `u32`s.
pub open spec fn sb_of(blk: Seq<u8>) -> Superblock {
    Superblock {
        magic: get_u32(blk, 0),
        size: get_u32(blk, 4),
        nblocks: get_u32(blk, 8),
        ninodes: get_u32(blk, 12),
        nlog: get_u32(blk, 16),
        logstart: get_u32(blk, 20),
        inodestart: get_u32(blk, 24),
        bmapstart: get_u32(blk, 28),
    }
}

/// A device image that the file system can start on: its superblock describes it, the
/// log header can be replayed, and after replay the bitmap marks every block before the
/// data region in use.
pub open spec fn image_ok(d: Seq<Seq<u8>>) -> bool {
    let sb = sb_of(d[1]);
    &&& blocks_wf(d)
    &&& d.len() >= 2
    &&& sb.layout_ok()
    &&& d.len() == sb.size
    &&& head_ok(d, sb.logstart as int, sb.nlog as int)
    &&& forall|b: int| 0 <= b < sb.data_start() ==> #[trigger] allocated(recovered(d, sb.logstart as int), sb, b)
}

/// Magic number of a file-system image.
pub const FSMAGIC: u32 = 0x10203040;

impl Superblock {
    /// Reads the superblock from block 1.
    pub fn read(disk: &Disk) -> (r: Superblock)
        requires
            disk.wf(),
            disk@.len() >= 2,
        ensures
            r == sb_of(disk@[1]),
    {
        Superblock {
            magic: disk.read_u32(1, 0),
            size: disk.read_u32(1, 4),
            nblocks: disk.read_u32(1, 8),
            ninodes: disk.read_u32(1, 12),
            nlog: disk.read_u32(1, 16),
            logstart: disk.read_u32(1, 20),
            inodestart: disk.read_u32(1, 24),
            bmapstart: disk.read_u32(1, 28),
        }
    }

    /// The block that stores this superblock.
    pub fn encode(&self) -> (r: Vec<u8>)
        ensures
            r@.len() == BSIZE,
            sb_of(r@) == *self,
    {
        let words: [u32; 8] = [
            self.magic,
            self.size,
            self.nblocks,
            self.ninodes,
            self.nlog,
            self.logstart,
            self.inodestart,
            self.bmapstart,
        ];
        let mut r = vec![0u8; BSIZE];
        let mut k: usize = 0;
        while k < 8
            invariant
                k <= 8,
                r@.len() == BSIZE,
                forall|j: int| 0 <= j < k ==> #[trigger] get_u32(r@, 4 * j) == words[j],
            decreases 8 - k,
        {
            let ghost before = r@;
            store_u32(&mut r, 4 * k, words[k]);
            proof {
                assert forall|j: int| 0 <= j < k + 1 implies #[trigger] get_u32(r@, 4 * j) == words[j] by {
                    lemma_put_get(before, 4 * k, words[k as int], 4 * j);
                }
            }
            k += 1;
        }
        proof {
            assert(get_u32(r@, 4 * (0 as int)) == words[0]);
            assert(get_u32(r@, 4 * (1 as int)) == words[1]);
            assert(get_u32(r@, 4 * (2 as int)) == words[2]);
            assert(get_u32(r@, 4 * (3 as int)) == words[3]);
            assert(get_u32(r@, 4 * (4 as int)) == words[4]);
            assert(get_u32(r@, 4 * (5 as int)) == words[5]);
            assert(get_u32(r@, 4 * (6 as int)) == words[6]);
            assert(get_u32(r@, 4 * (7 as int)) == words[7]);
            assert(sb_of(r@) == *self);
        }
        r
    }
}

/// Bit `i` of a bitmap block.
pub open spec fn bit_of(blk: Seq<u8>, i: int) -> bool {
    blk[i / 8] & (1u8 << ((i % 8) as u8)) != 0u8
}

/// Block `b` is marked in use in the bitmap of `c`.
pub open spec fn allocated(c: Seq<Seq<u8>>, sb: Superblock, b: int) -> bool {
    bit_of(c[sb.bmapstart + b / (BPB as int)], b % (BPB as int))
}

proof fn lemma_set_bit(x: u8, j: u8, k: u8)
    requires
        j < 8,
        k < 8,
    ensures
        (x | (1u8 << j)) & (1u8 << j) != 0u8,
        j != k ==> (((x | (1u8 << j)) & (1u8 << k)) != 0u8) == ((x & (1u8 << k)) != 0u8),
{
    assert((x | (1u8 << j)) & (1u8 << j) != 0u8) by (bit_vector)
        requires
            j < 8,
    ;
    assert(j != k ==> (((x | (1u8 << j)) & (1u8 << k)) != 0u8) == ((x & (1u8 << k)) != 0u8))
        by (bit_vector)
        requires
            j < 8,
            k < 8,
    ;
}

proof fn lemma_clear_bit(x: u8, j: u8, k: u8)
    requires
        j < 8,
        k < 8,
    ensures
        (x & !(1u8 << j)) & (1u8 << j) == 0u8,
        j != k ==> (((x & !(1u8 << j)) & (1u8 << k)) != 0u8) == ((x & (1u8 << k)) != 0u8),
{
    assert((x & !(1u8 << j)) & (1u8 << j) == 0u8) by (bit_vector)
        requires
            j < 8,
    ;
    assert(j != k ==> (((x & !(1u8 << j)) & (1u8 << k)) != 0u8) == ((x & (1u8 << k)) != 0u8))
        by (bit_vector)
        requires
            j < 8,
            k < 8,
    ;
}

/// The file system: superblock, device, block cache and log.
///
/// The cache holds the current contents of every block; the device differs from it, outside
/// the log region, only in blocks that the current transaction recorded.
pub struct FileSystem {
    pub superblock: Option<Superblock>,
    pub log: LogInner,
    pub disk: Disk,
    pub cache: Disk,
}

/// Participation of one operation in the current transaction.
pub struct FsTransaction {}

impl FileSystem {
    pub open spec fn sb(&self) -> Superblock {
        self.superblock->Some_0
    }

    pub open spec fn wf(&self) -> bool {
        let sb = self.sb();
        &&& self.superblock is Some
        &&& sb.layout_ok()
        &&& blocks_wf(self.disk@)
        &&& blocks_wf(self.cache@)
        &&& self.disk@.len() == sb.size
        &&& self.cache@.len() == sb.size
        &&& self.log.wf()
        &&& self.log.outstanding == 0 ==> self.log.blocks().len() == 0
        &&& !self.log.committing
        &&& self.log.start == sb.logstart
        &&& self.log.size == sb.nlog
        &&& home_blocks(self.log.blocks(), sb.size as int, sb.logstart as int, sb.nlog as int)
        &&& head_n(self.disk@, sb.logstart as int) == 0
        &&& same_home(
            applied(self.disk@, self.cache@, self.log.blocks()),
            self.cache@,
            sb.logstart as int,
            sb.nlog as int,
        )
        &&& forall|b: int| 0 <= b < sb.data_start() ==> #[trigger] allocated(self.cache@, sb, b)
    }

    /// The cache contents `c` still mark every block before the data region in use.
    pub open spec fn keeps_reserved(&self, c: Seq<Seq<u8>>) -> bool {
        forall|b: int| 0 <= b < self.sb().data_start() ==> #[trigger] allocated(c, self.sb(), b)
    }

    /// Number of inodes of the file system.
    pub fn superblock_ninodes(&self) -> (r: u32)
        requires
            self.wf(),
        ensures
            r == self.sb().ninodes,
    {
        match self.superblock {
            Some(sb) => sb.ninodes,
            None => 0,
        }
    }

    /// Room for `k` more recorded blocks in the current transaction.
    pub open spec fn room(&self, k: int) -> bool {
        &&& self.log.blocks().len() + k <= LOGSIZE
        &&& self.log.blocks().len() + k < self.log.size
    }

    /// Every block outside the log region reads the same in the cache and on the device.
    pub open spec fn synced(&self) -> bool {
        same_home(self.disk@, self.cache@, self.sb().logstart as int, self.sb().nlog as int)
    }

    /// A file system over `disk`, not yet started.
    pub fn zero(disk: Disk) -> (r: FileSystem)
        ensures
            r.superblock is None,
            r.disk@ == disk@,
    {
        FileSystem { superblock: None, log: LogInner::new(0, 0, 1), disk, cache: Disk::new(0) }
    }

    /// Starts the file system on its device: reads the superblock and replays the log.
    /// Only the first call does anything.
    pub fn init(&mut self, dev: u32)
        requires
            old(self).superblock is None ==> image_ok(old(self).disk@),
            old(self).superblock is Some ==> old(self).wf(),
        ensures
            final(self).wf(),
            old(self).superblock is Some ==> *final(self) == *old(self),
            old(self).superblock is None ==> {
                &&& final(self).sb() == sb_of(old(self).disk@[1])
                &&& final(self).disk@ == recovered(old(self).disk@, final(self).sb().logstart as int)
                &&& final(self).synced()
                &&& final(self).log.dev == dev
                &&& final(self).log.outstanding == 0
                &&& !final(self).log.committing
                &&& final(self).log.blocks() == Seq::<u32>::empty()
            },
    {
        if self.superblock.is_none() {
            let sb = Superblock::read(&self.disk);
            let mut log = LogInner::new(dev, sb.logstart, sb.nlog);
            proof {
                lemma_recovered(self.disk@, sb.logstart as int, sb.nlog as int);
            }
            log.recover_from_log(&mut self.disk);
            self.cache = self.disk.copy();
            self.log = log;
            self.superblock = Some(sb);
            assert(applied(self.disk@, self.cache@, Seq::<u32>::empty()) =~= self.cache@);
        }
    }

    /// Starts an operation, or returns `None` when it must wait for a commit or for room
    /// in the log.
    pub fn begin_transaction(&mut self) -> (r: Option<FsTransaction>)
        requires
            old(self).wf(),
        ensures
            final(self).wf(),
            r is Some == !(old(self).log.committing || old(self).log.blocks().len() + (
            old(self).log.outstanding + 1) * 10 > LOGSIZE),
            final(self).log.outstanding == old(self).log.outstanding + if r is Some {
                1int
            } else {
                0int
            },
            final(self).log.blocks() == old(self).log.blocks(),
            final(self).disk@ == old(self).disk@,
            final(self).cache@ == old(self).cache@,
            final(self).superblock == old(self).superblock,
    {
        if self.log.begin_op() {
            Some(FsTransaction {  })
        } else {
            None
        }
    }
}

impl FsTransaction {
    /// Ends the operation; the last one to end commits the transaction, after which the
    /// device holds what the cache holds.
    pub fn end(self, fs: &mut FileSystem)
        requires
            old(fs).wf(),
            old(fs).log.outstanding >= 1,
        ensures
            final(fs).wf(),
            final(fs).log.outstanding == old(fs).log.outstanding - 1,
            final(fs).cache@ == old(fs).cache@,
            final(fs).superblock == old(fs).superblock,
            old(fs).log.outstanding == 1 ==> final(fs).synced() && final(fs).log.blocks()
                == Seq::<u32>::empty(),
            old(fs).log.outstanding > 1 ==> final(fs).disk@ == old(fs).disk@,
    {
        let ghost d0 = fs.disk@;
        let ghost sb = fs.sb();
        let ghost bs = fs.log.blocks();
        fs.log.end_op(&mut fs.disk, &fs.cache);
        proof {
            if old(fs).log.outstanding == 1 {
                lemma_commit_applies(d0, fs.cache@, sb.logstart as int, sb.nlog as int, bs);
                lemma_committed_head_clear(d0, fs.cache@, sb.logstart as int, sb.nlog as int, bs);
                assert(applied(fs.disk@, fs.cache@, Seq::<u32>::empty()) =~= fs.disk@);
            }
        }
    }

    /// Stores `data` as the new contents of block `b` and records the block in the
    /// transaction.
    pub fn write(&self, fs: &mut FileSystem, b: u32, data: Vec<u8>)
        requires
            old(fs).wf(),
            old(fs).log.outstanding >= 1,
            old(fs).room(1),
            data@.len() == BSIZE,
            b < old(fs).sb().size,
            !in_log(b as int, old(fs).sb().logstart as int, old(fs).sb().nlog as int),
            old(fs).keeps_reserved(old(fs).cache@.update(b as int, data@)),
        ensures
            final(fs).wf(),
            final(fs).cache@ == old(fs).cache@.update(b as int, data@),
            final(fs).disk@ == old(fs).disk@,
            final(fs).superblock == old(fs).superblock,
            final(fs).log.outstanding == old(fs).log.outstanding,
            final(fs).log.blocks().len() <= old(fs).log.blocks().len() + 1,
            final(fs).log.blocks().contains(b),
            forall|x: u32| old(fs).log.blocks().contains(x) ==> final(fs).log.blocks().contains(x),
    {
        let ghost c0 = fs.cache@;
        let ghost bs0 = fs.log.blocks();
        fs.cache.write(b as usize, data);
        fs.log.write(b);
        proof {
            let sb = fs.sb();
            let bs = fs.log.blocks();
            if !bs0.contains(b) {
                assert(bs[bs0.len() as int] == b);
                assert forall|x: u32| bs0.contains(x) implies bs.contains(x) by {
                    let k = choose|k: int| 0 <= k < bs0.len() && bs0[k] == x;
                    assert(bs[k] == x);
                }
            }
            assert(bs.contains(b));
            assert forall|k: int| 0 <= k < bs.len() implies #[trigger] bs[k] < sb.size && !in_log(
                bs[k] as int,
                sb.logstart as int,
                sb.nlog as int,
            ) by {
                if k < bs0.len() {
                    assert(bs0[k] == bs[k]);
                }
            }
            let ap = applied(fs.disk@, fs.cache@, bs);
            let ap0 = applied(fs.disk@, c0, bs0);
            assert forall|x: int|
                0 <= x < ap.len() && !in_log(x, sb.logstart as int, sb.nlog as int) implies #[trigger] ap[x]
                == fs.cache@[x] by {
                assert(ap0[x] == c0[x]);
                if x != b {
                    if exists|i: int| 0 <= i < bs.len() && bs[i] as int == x {
                        let i = choose|i: int| 0 <= i < bs.len() && bs[i] as int == x;
                        if bs0.contains(b) {
                            assert(bs0[i] as int == x);
                        } else if i < bs0.len() {
                            assert(bs0[i] as int == x);
                        }
                    } else {
                        assert(forall|i: int| 0 <= i < bs0.len() ==> bs0[i] as int != x) by {
                            assert forall|i: int| 0 <= i < bs0.len() implies bs0[i] as int != x by {
                                if !bs0.contains(b) {
                                    assert(bs[i] == bs0[i]);
                                }
                            }
                        }
                    }
                } else {
                    let i = choose|i: int| 0 <= i < bs.len() && bs[i] == b;
                    assert(bs[i] as int == x);
                }
            }
        }
    }
}

/// `r` is the first block whose bit is clear in the bitmap of `c`, or `None` when there
/// is none.
pub open spec fn first_free(c: Seq<Seq<u8>>, sb: Superblock, r: Option<u32>) -> bool {
    match r {
        None => forall|x: int| 0 <= x < sb.size ==> #[trigger] allocated(c, sb, x),
        Some(b) => {
            &&& sb.data_start() <= b < sb.size
            &&& !allocated(c, sb, b as int)
            &&& forall|x: int| 0 <= x < b ==> #[trigger] allocated(c, sb, x)
        },
    }
}

/// A block in use is never handed out by the allocator; it must be freed first.
pub proof fn lemma_in_use_not_allocated(c: Seq<Seq<u8>>, sb: Superblock, b: u32, r: Option<u32>)
    requires
        allocated(c, sb, b as int),
        first_free(c, sb, r),
    ensures
        r != Some(b),
{
}

/// A block of zeroes.
pub open spec fn zero_block() -> Seq<u8> {
    Seq::new(BSIZE as nat, |i: int| 0u8)
}

impl FsTransaction {
    /// Zeroes block `b` of the data region.
    pub fn bzero(&self, fs: &mut FileSystem, b: u32)
        requires
            old(fs).wf(),
            old(fs).log.outstanding >= 1,
            old(fs).room(1),
            old(fs).sb().data_start() <= b < old(fs).sb().size,
        ensures
            final(fs).wf(),
            final(fs).cache@ == old(fs).cache@.update(b as int, zero_block()),
            final(fs).disk@ == old(fs).disk@,
            final(fs).superblock == old(fs).superblock,
            final(fs).log.outstanding == old(fs).log.outstanding,
            final(fs).log.blocks().len() <= old(fs).log.blocks().len() + 1,
    {
        let z = vec![0u8; BSIZE];
        assert(z@ =~= zero_block());
        proof {
            lemma_data_write_frame(fs.cache@, fs.sb(), b as int, z@);
        }
        self.write(fs, b, z);
    }

    /// Allocates a zeroed block: the first block whose bit in the bitmap is clear. `None`
    /// when every block is in use.
    pub fn balloc(&self, fs: &mut FileSystem) -> (r: Option<u32>)
        requires
            old(fs).wf(),
            old(fs).log.outstanding >= 1,
            old(fs).room(2),
        ensures
            final(fs).wf(),
            final(fs).disk@ == old(fs).disk@,
            final(fs).superblock == old(fs).superblock,
            final(fs).log.outstanding == old(fs).log.outstanding,
            final(fs).log.blocks().len() <= old(fs).log.blocks().len() + 2,
            first_free(old(fs).cache@, old(fs).sb(), r),
            match r {
                None => final(fs).cache@ == old(fs).cache@,
                Some(b) => {
                    &&& allocated(final(fs).cache@, final(fs).sb(), b as int)
                    &&& forall|x: int| 0 <= x < old(fs).sb().size && x != b ==> #[trigger] allocated(final(fs).cache@, final(fs).sb(), x)
                        == allocated(old(fs).cache@, old(fs).sb(), x)
                    &&& final(fs).cache@[b as int] == zero_block()
                    &&& final(fs).cache@.len() == old(fs).cache@.len()
                    &&& forall|x: int| 0 <= x < old(fs).cache@.len() && x != b && x != old(fs).sb().bmapstart + b as int / (BPB as int)
                        ==> #[trigger] final(fs).cache@[x] == old(fs).cache@[x]
                },
            },
    {
        let sb = match fs.superblock {
            Some(sb) => sb,
            None => return None,
        };
        let ghost c0 = fs.cache@;
        let size = sb.size;
        let mut base: u64 = 0;
        let mut k: u32 = 0;
        while base < size as u64
            invariant
                fs.wf(),
                fs.room(2),
                fs.log.outstanding >= 1,
                fs.sb() == sb,
                *fs == *old(fs),
                c0 == fs.cache@,
                size == sb.size,
                base == k as int * BPB,
                base <= size + BPB,
                forall|x: int| 0 <= x < base && x < size ==> #[trigger] allocated(c0, sb, x),
            decreases size + BPB - base,
        {
            let bb = sb.bblock(base as u32);
            proof {
                vstd::arithmetic::div_mod::lemma_fundamental_div_mod_converse(base as int, BPB as int, k as int, 0);
            }
            let mut blk = fs.cache.read(bb as usize);
            let lim: u32 = if size as u64 - base < BPB as u64 { (size as u64 - base) as u32 } else { BPB as u32 };
            let mut bi: u32 = 0;
            while bi < lim
                invariant
                    fs.wf(),
                    fs.room(2),
                    fs.log.outstanding >= 1,
                    fs.sb() == sb,
                    *fs == *old(fs),
                    c0 == fs.cache@,
                    size == sb.size,
                    base == k as int * BPB,
                    base < size,
                    bb == sb.bmapstart + k,
                    bb < sb.data_start(),
                    lim <= BPB,
                    base + lim <= size,
                    blk@ == c0[bb as int],
                    blk@.len() == BSIZE,
                    bi <= lim,
                    forall|x: int| 0 <= x < base + bi && x < size ==> #[trigger] allocated(c0, sb, x),
                decreases lim - bi,
            {
                let idx = (bi / 8) as usize;
                let m: u8 = 1u8 << ((bi % 8) as u8);
                let b = (base + bi as u64) as u32;
                proof {
                    vstd::arithmetic::div_mod::lemma_fundamental_div_mod_converse(b as int, BPB as int, k as int, bi as int);
                }
                if blk[idx] & m == 0 {
                    assert(!allocated(c0, sb, b as int));
                    assert(b as int >= sb.data_start()) by {
                        if (b as int) < sb.data_start() {
                            assert(allocated(c0, sb, b as int));
                        }
                    }
                    let nb = blk[idx] | m;
                    blk.set(idx, nb);
                    proof {
                        let i = (b as int) % (BPB as int);
                        assert(i == bi);
                        assert(sb.bmapstart + (b as int) / (BPB as int) == bb);
                        assert(idx as int == i / 8);
                        assert(m == 1u8 << ((i % 8) as u8));
                        assert(blk@ == c0[bb as int].update(i / 8, c0[bb as int][i / 8] | (1u8 << ((i % 8) as u8))));
                        let c2 = c0.update(bb as int, blk@);
                        lemma_bitmap_update(c0, c2, sb, b as int, true);
                        assert forall|x: int| 0 <= x < sb.data_start() implies #[trigger] allocated(c2, sb, x) by {
                            assert(allocated(c0, sb, x));
                        }
                    }
                    self.write(fs, bb, blk);
                    let ghost c1 = fs.cache@;
                    self.bzero(fs, b);
                    proof {
                        lemma_data_write_frame(c1, sb, b as int, zero_block());
                    }
                    return Some(b);
                }
                assert(allocated(c0, sb, b as int));
                bi += 1;
            }
            base = base + BPB as u64;
            k = k + 1;
        }
        None
    }

    /// Frees block `b` of the data region: clears its bit in the bitmap.
    pub fn bfree(&self, fs: &mut FileSystem, b: u32)
        requires
            old(fs).wf(),
            old(fs).log.outstanding >= 1,
            old(fs).room(1),
            old(fs).sb().data_start() <= b < old(fs).sb().size,
            allocated(old(fs).cache@, old(fs).sb(), b as int),
        ensures
            final(fs).wf(),
            final(fs).disk@ == old(fs).disk@,
            final(fs).superblock == old(fs).superblock,
            final(fs).log.outstanding == old(fs).log.outstanding,
            final(fs).log.blocks().len() <= old(fs).log.blocks().len() + 1,
            !allocated(final(fs).cache@, final(fs).sb(), b as int),
            final(fs).log.blocks().contains((old(fs).sb().bmapstart + b as int / (BPB as int)) as u32),
            forall|x: int| 0 <= x < old(fs).sb().size && x != b ==> #[trigger] allocated(final(fs).cache@, final(fs).sb(), x)
                == allocated(old(fs).cache@, old(fs).sb(), x),
            forall|x: int| 0 <= x < old(fs).sb().size && x != old(fs).sb().bmapstart + b as int / (BPB as int) ==> #[trigger] final(fs).cache@[x]
                == old(fs).cache@[x],
    {
        let sb = match fs.superblock {
            Some(sb) => sb,
            None => return,
        };
        let bb = sb.bblock(b);
        let mut blk = fs.cache.read(bb as usize);
        let bi = b % (BPB as u32);
        let idx = (bi / 8) as usize;
        let m: u8 = 1u8 << ((bi % 8) as u8);
        proof {
            vstd::arithmetic::div_mod::lemma_fundamental_div_mod(b as int, BPB as int);
        }
        let nb = blk[idx] & !m;
        blk.set(idx, nb);
        proof {
            let i = (b as int) % (BPB as int);
            assert(i == bi);
            assert(idx as int == i / 8);
            assert(m == 1u8 << ((i % 8) as u8));
            assert(blk@ == fs.cache@[bb as int].update(i / 8, fs.cache@[bb as int][i / 8] & !(1u8 << ((i % 8) as u8))));
            let c2 = fs.cache@.update(bb as int, blk@);
            lemma_bitmap_update(fs.cache@, c2, sb, b as int, false);
            assert forall|x: int| 0 <= x < sb.data_start() implies #[trigger] allocated(c2, sb, x) by {
                assert(allocated(fs.cache@, sb, x));
            }
        }
        self.write(fs, bb, blk);
    }
}

/// A commit leaves an empty header behind.
proof fn lemma_committed_head_clear(
    d: Seq<Seq<u8>>,
    c: Seq<Seq<u8>>,
    start: int,
    size: int,
    bs: Seq<u32>,
)
    requires
        crate::logspec::commit_ok(d, c, start, size, bs),
        head_n(d, start) == 0,
    ensures
        head_n(committed(d, c, start, bs), start) == 0,
{
    if bs.len() > 0 {
        let d1 = crate::logspec::log_copied(d, c, start, bs, bs.len() as int);
        let d2 = crate::logspec::head_written(d1, start, bs);
        crate::logspec::lemma_stages_wf(d, c, start, size, bs, bs.len() as int);
        crate::logspec::lemma_header_decode(d1, start, bs);
        assert(blocks_wf(d2)) by {
            assert forall|x: int| 0 <= x < d2.len() implies #[trigger] d2[x].len() == BSIZE by {
                if x != start {
                    assert(d2[x] == d1[x]);
                }
            }
        }
        crate::logspec::lemma_installed(d2, start, size, bs, bs.len() as int);
        crate::logspec::lemma_installed_wf(d2, start, size, bs, bs.len() as int);
        let i = crate::logspec::installed(d2, start, bs, bs.len() as int);
        crate::logspec::lemma_header_decode(i, start, Seq::<u32>::empty());
    }
}

/// Writing a block outside the bitmap leaves the bitmap alone.
pub proof fn lemma_data_write_frame(c: Seq<Seq<u8>>, sb: Superblock, x: int, data: Seq<u8>)
    requires
        sb.layout_ok(),
        c.len() == sb.size,
        0 <= x < sb.size,
        !(sb.bmapstart <= x < sb.data_start()),
    ensures
        forall|b: int| 0 <= b < sb.size ==> #[trigger] allocated(c.update(x, data), sb, b) == allocated(c, sb, b),
{
    assert forall|b: int| 0 <= b < sb.size implies #[trigger] allocated(c.update(x, data), sb, b)
        == allocated(c, sb, b) by {
        vstd::arithmetic::div_mod::lemma_div_is_ordered(b, sb.size as int, BPB as int);
    }
}

/// Setting (or clearing) the bit of block `b` in its bitmap block changes no other bit.
proof fn lemma_bitmap_update(c: Seq<Seq<u8>>, c2: Seq<Seq<u8>>, sb: Superblock, b: int, set: bool)
    requires
        sb.layout_ok(),
        blocks_wf(c),
        c.len() == sb.size,
        0 <= b < sb.size,
        c2 == ({
            let bb = sb.bmapstart + b / (BPB as int);
            let i = b % (BPB as int);
            let blk = c[bb];
            let m = 1u8 << ((i % 8) as u8);
            c.update(bb, blk.update(i / 8, if set { blk[i / 8] | m } else { blk[i / 8] & !m }))
        }),
    ensures
        allocated(c2, sb, b) == set,
        forall|x: int| 0 <= x < sb.size && x != b ==> #[trigger] allocated(c2, sb, x) == allocated(c, sb, x),
{
    let bb = sb.bmapstart + b / (BPB as int);
    let i = b % (BPB as int);
    let blk = c[bb];
    let m = 1u8 << ((i % 8) as u8);
    let nb = if set { blk[i / 8] | m } else { blk[i / 8] & !m };
    let nblk = blk.update(i / 8, nb);
    vstd::arithmetic::div_mod::lemma_div_is_ordered(b, sb.size as int, BPB as int);
    assert(bb < sb.size);
    assert(0 <= i / 8 < BSIZE) by {
        vstd::arithmetic::div_mod::lemma_div_is_ordered(i, BPB as int, 8);
    }
    if set {
        lemma_set_bit(blk[i / 8], (i % 8) as u8, 0);
    } else {
        lemma_clear_bit(blk[i / 8], (i % 8) as u8, 0);
    }
    assert forall|x: int| 0 <= x < sb.size && x != b implies #[trigger] allocated(c2, sb, x) == allocated(
        c,
        sb,
        x,
    ) by {
        vstd::arithmetic::div_mod::lemma_div_is_ordered(x, sb.size as int, BPB as int);
        let bx = sb.bmapstart + x / (BPB as int);
        let k = x % (BPB as int);
        if bx == bb {
            assert(x / (BPB as int) == b / (BPB as int));
            vstd::arithmetic::div_mod::lemma_fundamental_div_mod(x, BPB as int);
            vstd::arithmetic::div_mod::lemma_fundamental_div_mod(b, BPB as int);
            assert(k != i);
            if k / 8 == i / 8 {
                vstd::arithmetic::div_mod::lemma_fundamental_div_mod(k, 8);
                vstd::arithmetic::div_mod::lemma_fundamental_div_mod(i, 8);
                assert(k % 8 != i % 8);
                if set {
                    lemma_set_bit(blk[i / 8], (i % 8) as u8, (k % 8) as u8);
                } else {
                    lemma_clear_bit(blk[i / 8], (i % 8) as u8, (k % 8) as u8);
                }
            }
        }
    }
}

/// A fresh image of `size` blocks: boot block, superblock, a log of `nlog` blocks, room
/// for `ninodes` inodes, the bitmap, then free data blocks.
pub fn mkfs(size: u32, ninodes: u32, nlog: u32) -> (r: Disk)
    requires
        2 <= nlog <= 1000,
        ninodes <= 0x10000,
        3 + nlog + ninodes / (IPB as u32) + 1 + size / (BPB as u32) < size,
    ensures
        image_ok(r@),
        sb_of(r@[1]).size == size,
        sb_of(r@[1]).nlog == nlog,
        sb_of(r@[1]).logstart == 2,
        head_n(r@, 2) == 0,
        forall|x: int| sb_of(r@[1]).data_start() <= x < size ==> !#[trigger] allocated(r@, sb_of(r@[1]), x),
{
    let ninodeblocks = ninodes / (IPB as u32) + 1;
    let bmapstart = 2 + nlog + ninodeblocks;
    let nbitmap = size / (BPB as u32) + 1;
    let data_start = bmapstart + nbitmap;
    let sb = Superblock {
        magic: FSMAGIC,
        size,
        nblocks: size - data_start,
        ninodes,
        nlog,
        logstart: 2,
        inodestart: 2 + nlog,
        bmapstart,
    };
    assert(sb.data_start() == data_start);
    let mut disk = Disk::new(size as usize);
    let ghost d0 = disk@;
    proof {
        lemma_le_zero();
        assert forall|x: int| 0 <= x < size implies !#[trigger] allocated(d0, sb, x) by {
            vstd::arithmetic::div_mod::lemma_div_is_ordered(x, size as int, BPB as int);
            vstd::arithmetic::div_mod::lemma_div_is_ordered(x % (BPB as int), BPB as int, 8);
            let i = x % (BPB as int);
            assert(d0[sb.bmapstart + x / (BPB as int)][i / 8] == 0u8);
            let m = 1u8 << ((i % 8) as u8);
            assert(0u8 & m == 0u8) by (bit_vector);
        }
    }
    disk.write(1, sb.encode());
    proof {
        assert forall|x: int| 0 <= x < size implies !#[trigger] allocated(disk@, sb, x) by {
            vstd::arithmetic::div_mod::lemma_div_is_ordered(0, x, BPB as int);
            assert(!allocated(d0, sb, x));
        }
    }
    let mut b: u32 = 0;
    while b < data_start
        invariant
            sb.layout_ok(),
            sb.size == size,
            sb.data_start() == data_start,
            data_start <= size,
            disk.wf(),
            disk@.len() == size,
            sb_of(disk@[1]) == sb,
            disk@[2] == d0[2],
            b <= data_start,
            forall|x: int| 0 <= x < b ==> #[trigger] allocated(disk@, sb, x),
            forall|x: int| b <= x < size ==> !#[trigger] allocated(disk@, sb, x),
        decreases data_start - b,
    {
        let bb = sb.bblock(b);
        let mut blk = disk.read(bb as usize);
        let bi = b % (BPB as u32);
        let idx = (bi / 8) as usize;
        let m: u8 = 1u8 << ((bi % 8) as u8);
        proof {
            vstd::arithmetic::div_mod::lemma_fundamental_div_mod(b as int, BPB as int);
            vstd::arithmetic::div_mod::lemma_div_is_ordered(bi as int, BPB as int, 8);
        }
        let nb = blk[idx] | m;
        blk.set(idx, nb);
        proof {
            let i = (b as int) % (BPB as int);
            assert(i == bi);
            assert(idx as int == i / 8);
            assert(m == 1u8 << ((i % 8) as u8));
            let c2 = disk@.update(bb as int, blk@);
            lemma_bitmap_update(disk@, c2, sb, b as int, true);
        }
        disk.write(bb as usize, blk);
        b += 1;
    }
    proof {
        lemma_le_zero();
        assert(head_n(disk@, 2) == 0);
        assert(head_blocks(disk@, 2) =~= Seq::<u32>::empty());
        let rd = recovered(disk@, 2);
        assert(rd == disk@.update(2, put_u32(disk@[2], 0, 0)));
        assert forall|x: int| 0 <= x < data_start implies #[trigger] allocated(rd, sb, x) by {
            vstd::arithmetic::div_mod::lemma_div_is_ordered(x, size as int, BPB as int);
            assert(allocated(disk@, sb, x));
        }
    }
    disk
}

} // verus!

//! On-disk inodes: 64 bytes each, `IPB` to a block of the inode table. Type, major and
//! minor device numbers and link count take two little-endian bytes each, then come the
//! size and the `NDIRECT + 1` block addresses, four bytes each.
use vstd::prelude::*;

use crate::disk::{get_u32, lemma_put_get, store_u32};
use crate::fs::{lemma_data_write_frame, FileSystem, FsTransaction, Superblock};
use crate::inode::InodeInner;
use crate::logspec::in_log;
use crate::param::{BSIZE, IPB};

verus! {

/// Size of an on-disk inode in bytes.
pub const DINODE_SIZE: usize = 64;

/// The `u16` stored little-endian at `off` in a block.
pub open spec fn get_u16(blk: Seq<u8>, off: int) -> u16 {
    ((blk[off] as u16) | ((blk[off + 1] as u16) << 8u16)) as u16
}

/// The two's-complement `i16` of a `u16`.
pub open spec fn i16_of(u: u16) -> i16 {
    if u < 0x8000 {
        u as i16
    } else {
        (u - 0x10000) as i16
    }
}

/// The `u16` whose two's-complement value is `x`.
pub open spec fn u16_of(x: i16) -> u16 {
    if x >= 0 {
        x as u16
    } else {
        (x + 0x10000) as u16
    }
}

/// The bytes at `off` in a block hold inode `ip`.
pub open spec fn holds_dinode(blk: Seq<u8>, off: int, ip: InodeInner) -> bool {
    &&& ip.typ == i16_of(get_u16(blk, off))
    &&& ip.major == get_u16(blk, off + 2)
    &&& ip.minor == get_u16(blk, off + 4)
    &&& ip.nlink == i16_of(get_u16(blk, off + 6))
    &&& ip.size == get_u32(blk, off + 8)
    &&& forall|k: int| 0 <= k < 13 ==> #[trigger] ip.addrs[k] == get_u32(blk, off + 12 + 4 * k)
}

/// The bytes of an on-disk inode determine every field of the copy but whether it is valid:
/// what `encode` stores, `decode` gives back.
pub proof fn lemma_dinode_determined(blk: Seq<u8>, off: int, a: InodeInner, b: InodeInner)
    requires
        holds_dinode(blk, off, a),
        holds_dinode(blk, off, b),
        a.valid == b.valid,
    ensures
        a == b,
{
    assert(a.addrs =~= b.addrs);
}

/// Byte offset of inode `inum` in its block.
pub open spec fn dinode_off(inum: u32) -> int {
    (inum as int % (IPB as int)) * (DINODE_SIZE as int)
}

fn read_u16(blk: &Vec<u8>, off: usize) -> (r: u16)
    requires
        off + 2 <= blk@.len(),
        off + 2 <= BSIZE,
    ensures
        r == get_u16(blk@, off as int),
{
    ((blk[off] as u16) | ((blk[off + 1] as u16) << 8u16)) as u16
}

fn read_u32_at(blk: &Vec<u8>, off: usize) -> (r: u32)
    requires
        off + 4 <= blk@.len(),
        off + 4 <= BSIZE,
    ensures
        r == get_u32(blk@, off as int),
{
    (blk[off] as u32) | ((blk[off + 1] as u32) << 8u32) | ((blk[off + 2] as u32) << 16u32) | ((blk[off
        + 3] as u32) << 24u32)
}

fn to_i16(u: u16) -> (r: i16)
    ensures
        r == i16_of(u),
{
    if u < 0x8000 {
        u as i16
    } else {
        (u as i32 - 0x10000) as i16
    }
}

fn to_u16(x: i16) -> (r: u16)
    ensures
        r == u16_of(x),
        i16_of(r) == x,
{
    if x >= 0 {
        x as u16
    } else {
        (x as i32 + 0x10000) as u16
    }
}

fn store_u16(blk: &mut Vec<u8>, off: usize, v: u16)
    requires
        off + 2 <= old(blk)@.len(),
        off + 2 <= BSIZE,
    ensures
        get_u16(final(blk)@, off as int) == v,
        final(blk)@.len() == old(blk)@.len(),
        forall|j: int| 0 <= j < old(blk)@.len() && j != off && j != off + 1 ==> #[trigger] final(blk)@[j] == old(blk)@[j],
{
    let lo = (v & 0xffu16) as u8;
    let hi = (v >> 8u16) as u8;
    blk.set(off, lo);
    blk.set(off + 1, hi);
    assert(((lo as u16) | ((hi as u16) << 8u16)) as u16 == v) by (bit_vector)
        requires
            lo == (v & 0xffu16) as u8,
            hi == (v >> 8u16) as u8,
    ;
}

impl InodeInner {
    /// The inode stored at byte `off` of a block of the inode table.
    pub fn decode(blk: &Vec<u8>, off: usize) -> (r: InodeInner)
        requires
            off + DINODE_SIZE <= blk@.len(),
            off + DINODE_SIZE <= BSIZE,
        ensures
            r.valid,
            holds_dinode(blk@, off as int, r),
    {
        let mut addrs = [0u32; 13];
        let mut k: usize = 0;
        while k < 13
            invariant
                k <= 13,
                off + DINODE_SIZE <= blk@.len(),
                off + DINODE_SIZE <= BSIZE,
                forall|j: int| 0 <= j < k ==> #[trigger] addrs[j] == get_u32(blk@, off + 12 + 4 * j),
            decreases 13 - k,
        {
            addrs[k] = read_u32_at(blk, off + 12 + 4 * k);
            k += 1;
        }
        InodeInner {
            valid: true,
            typ: to_i16(read_u16(blk, off)),
            major: read_u16(blk, off + 2),
            minor: read_u16(blk, off + 4),
            nlink: to_i16(read_u16(blk, off + 6)),
            size: read_u32_at(blk, off + 8),
            addrs,
        }
    }

    /// Stores this inode at byte `off` of a block of the inode table; the other bytes of the
    /// block keep their values.
    pub fn encode(&self, blk: &mut Vec<u8>, off: usize)
        requires
            off + DINODE_SIZE <= old(blk)@.len(),
            old(blk)@.len() == BSIZE,
        ensures
            holds_dinode(final(blk)@, off as int, *self),
            final(blk)@.len() == old(blk)@.len(),
            forall|j: int| 0 <= j < old(blk)@.len() && !(off <= j < off + DINODE_SIZE) ==> #[trigger] final(blk)@[j]
                == old(blk)@[j],
    {
        let ghost b0 = blk@;
        store_u16(blk, off, to_u16(self.typ));
        store_u16(blk, off + 2, self.major);
        store_u16(blk, off + 4, self.minor);
        store_u16(blk, off + 6, to_u16(self.nlink));
        let ghost b1 = blk@;
        assert(get_u16(b1, off as int) == u16_of(self.typ));
        store_u32(blk, off + 8, self.size);
        proof {
            lemma_put_get(b1, off + 8, self.size, off + 8);
            assert(get_u16(blk@, off as int) == get_u16(b1, off as int));
            assert(get_u16(blk@, off + 2) == get_u16(b1, off + 2));
            assert(get_u16(blk@, off + 4) == get_u16(b1, off + 4));
            assert(get_u16(blk@, off + 6) == get_u16(b1, off + 6));
        }
        let mut k: usize = 0;
        while k < 13
            invariant
                k <= 13,
                off + DINODE_SIZE <= blk@.len(),
                blk@.len() == BSIZE,
                b0.len() == BSIZE,
                get_u16(blk@, off as int) == u16_of(self.typ),
                get_u16(blk@, off + 2) == self.major,
                get_u16(blk@, off + 4) == self.minor,
                get_u16(blk@, off + 6) == u16_of(self.nlink),
                get_u32(blk@, off + 8) == self.size,
                forall|j: int| 0 <= j < k ==> #[trigger] get_u32(blk@, off + 12 + 4 * j) == self.addrs[j],
                forall|j: int| 0 <= j < b0.len() && !(off <= j < off + DINODE_SIZE) ==> #[trigger] blk@[j] == b0[j],
            decreases 13 - k,
        {
            let ghost bk = blk@;
            store_u32(blk, off + 12 + 4 * k, self.addrs[k]);
            proof {
                lemma_put_get(bk, off + 12 + 4 * k, self.addrs[k as int], off + 8);
                assert forall|j: int| 0 <= j < k + 1 implies #[trigger] get_u32(blk@, off + 12 + 4 * j) == self.addrs[j] by {
                    lemma_put_get(bk, off + 12 + 4 * k, self.addrs[k as int], off + 12 + 4 * j);
                }
                assert(get_u16(blk@, off as int) == get_u16(bk, off as int));
                assert(get_u16(blk@, off + 2) == get_u16(bk, off + 2));
                assert(get_u16(blk@, off + 4) == get_u16(bk, off + 4));
                assert(get_u16(blk@, off + 6) == get_u16(bk, off + 6));
            }
            k += 1;
        }
    }
}

/// Reads inode `inum` from the cache: the copy that locking an inode loads.
pub fn iload(fs: &FileSystem, inum: u32) -> (r: InodeInner)
    requires
        fs.wf(),
        inum < fs.sb().ninodes,
    ensures
        r.valid,
        holds_dinode(fs.cache@[fs.sb().inodestart + inum as int / (IPB as int)], dinode_off(inum), r),
{
    let sb = match fs.superblock {
        Some(sb) => sb,
        None => {
            return InodeInner::empty();
        },
    };
    let b = sb.iblock(inum);
    let blk = fs.cache.read(b as usize);
    let off = (inum % (IPB as u32)) as usize * DINODE_SIZE;
    InodeInner::decode(&blk, off)
}

/// Writes the copy of inode `inum` back to its block of the inode table, through the
/// transaction.
pub fn iupdate(ip: &InodeInner, fs: &mut FileSystem, tx: &FsTransaction, inum: u32)
    requires
        old(fs).wf(),
        old(fs).log.outstanding >= 1,
        old(fs).room(1),
        inum < old(fs).sb().ninodes,
    ensures
        final(fs).wf(),
        final(fs).superblock == old(fs).superblock,
        final(fs).log.outstanding == old(fs).log.outstanding,
        final(fs).log.blocks().len() <= old(fs).log.blocks().len() + 1,
        ({
            let b = old(fs).sb().inodestart + inum as int / (IPB as int);
            &&& holds_dinode(final(fs).cache@[b], dinode_off(inum), *ip)
            &&& forall|j: int| 0 <= j < BSIZE && !(dinode_off(inum) <= j < dinode_off(inum) + DINODE_SIZE) ==> #[trigger] final(fs).cache@[b][j]
                == old(fs).cache@[b][j]
            &&& forall|x: int| 0 <= x < old(fs).cache@.len() && x != b ==> #[trigger] final(fs).cache@[x] == old(fs).cache@[x]
        }),
{
    let sb = match fs.superblock {
        Some(sb) => sb,
        None => {
            return;
        },
    };
    let b = sb.iblock(inum);
    let mut blk = fs.cache.read(b as usize);
    let off = (inum % (IPB as u32)) as usize * DINODE_SIZE;
    ip.encode(&mut blk, off);
    proof {
        lemma_data_write_frame(fs.cache@, sb, b as int, blk@);
        assert(!in_log(b as int, sb.logstart as int, sb.nlog as int));
    }
    tx.write(fs, b, blk);
}

/// Type of inode `inum` in the inode table of cache `c`; 0 for a free inode.
pub open spec fn disk_type(c: Seq<Seq<u8>>, sb: Superblock, inum: int) -> i16 {
    i16_of(get_u16(c[sb.inodestart + inum / (IPB as int)], (inum % (IPB as int)) * (DINODE_SIZE as int)))
}

/// The bytes at `off` hold a new inode of type `typ`: no device numbers, no links, no data.
pub open spec fn holds_fresh(blk: Seq<u8>, off: int, typ: i16) -> bool {
    &&& i16_of(get_u16(blk, off)) == typ
    &&& get_u16(blk, off + 2) == 0
    &&& get_u16(blk, off + 4) == 0
    &&& i16_of(get_u16(blk, off + 6)) == 0
    &&& get_u32(blk, off + 8) == 0
    &&& forall|k: int| 0 <= k < 13 ==> #[trigger] get_u32(blk, off + 12 + 4 * k) == 0
}

/// Allocates an inode of type `typ`: the first inode from 1 on whose type on disk is 0 gets
/// type `typ` and is otherwise zeroed. `None` when every inode is in use.
pub fn ialloc(fs: &mut FileSystem, tx: &FsTransaction, typ: i16) -> (r: Option<u32>)
    requires
        old(fs).wf(),
        old(fs).log.outstanding >= 1,
        old(fs).room(1),
        typ != 0,
    ensures
        final(fs).wf(),
        final(fs).superblock == old(fs).superblock,
        final(fs).log.outstanding == old(fs).log.outstanding,
        final(fs).log.blocks().len() <= old(fs).log.blocks().len() + 1,
        match r {
            None => final(fs).cache@ == old(fs).cache@ && forall|j: int|
                1 <= j < old(fs).sb().ninodes ==> #[trigger] disk_type(old(fs).cache@, old(fs).sb(), j) != 0,
            Some(inum) => {
                let b = old(fs).sb().inodestart + inum as int / (IPB as int);
                &&& 1 <= inum < old(fs).sb().ninodes
                &&& forall|j: int| 1 <= j < inum ==> #[trigger] disk_type(old(fs).cache@, old(fs).sb(), j) != 0
                &&& disk_type(old(fs).cache@, old(fs).sb(), inum as int) == 0
                &&& holds_fresh(final(fs).cache@[b], dinode_off(inum), typ)
                &&& forall|x: int| 0 <= x < old(fs).cache@.len() && x != b ==> #[trigger] final(fs).cache@[x] == old(fs).cache@[x]
            },
        },
{
    let sb = match fs.superblock {
        Some(sb) => sb,
        None => {
            return None;
        },
    };
    let mut inum: u32 = 1;
    while inum < sb.ninodes
        invariant
            fs.wf(),
            fs.sb() == sb,
            *fs == *old(fs),
            fs.room(1),
            fs.log.outstanding >= 1,
            1 <= inum,
            forall|j: int| 1 <= j < inum ==> #[trigger] disk_type(fs.cache@, sb, j) != 0,
        decreases sb.ninodes - inum,
    {
        let d = iload(fs, inum);
        if d.typ == 0 {
            let ip = InodeInner { valid: true, typ, major: 0, minor: 0, nlink: 0, size: 0, addrs: [0u32; 13] };
            iupdate(&ip, fs, tx, inum);
            proof {
                let b = sb.inodestart + inum as int / (IPB as int);
                assert forall|k: int| 0 <= k < 13 implies #[trigger] get_u32(fs.cache@[b], dinode_off(inum) + 12 + 4 * k) == 0 by {
                    assert(ip.addrs[k] == 0);
                }
            }
            return Some(inum);
        }
        inum += 1;
    }
    None
}

} // verus!

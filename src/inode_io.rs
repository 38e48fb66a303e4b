//! Reading an inode's data: the byte at offset `i` of a file lies in block `i / BSIZE` of
//! its index, found among the direct addresses or in the indirect block.
use vstd::prelude::*;

use crate::disk::{blocks_wf, get_u32, lemma_put_get, put_u32, store_u32, Disk};
use crate::fs::{allocated, zero_block, FileSystem, FsTransaction, Superblock};
use crate::inode::InodeInner;
use crate::param::{BPB, BSIZE, LOGSIZE, MAXFILE, NDIRECT, NINDIRECT};

verus! {

/// Device block that holds block `bn` of the file.
pub open spec fn addr_of(c: Seq<Seq<u8>>, ip: InodeInner, bn: int) -> int {
    if bn < NDIRECT {
        ip.addrs[bn] as int
    } else if ip.addrs[NDIRECT as int] == 0 {
        0
    } else {
        get_u32(c[ip.addrs[NDIRECT as int] as int], 4 * (bn - NDIRECT)) as int
    }
}

/// Number of blocks that hold the file's bytes.
pub open spec fn nblocks(ip: InodeInner) -> int {
    (ip.size as int + BSIZE - 1) / (BSIZE as int)
}

/// Every block that holds the file's bytes is a block of the device.
pub open spec fn mapped(c: Seq<Seq<u8>>, ip: InodeInner) -> bool {
    &&& blocks_wf(c)
    &&& ip.size <= MAXFILE * BSIZE
    &&& nblocks(ip) > NDIRECT ==> ip.addrs[NDIRECT as int] < c.len()
    &&& forall|bn: int| 0 <= bn < nblocks(ip) ==> 0 <= #[trigger] addr_of(c, ip, bn) < c.len()
}

/// The file's bytes.
pub open spec fn file_data(c: Seq<Seq<u8>>, ip: InodeInner) -> Seq<u8> {
    Seq::new(ip.size as nat, |i: int| c[addr_of(c, ip, i / (BSIZE as int))][i % (BSIZE as int)])
}

/// Metadata of a file as `fstat` reports it.
#[derive(Clone, Copy, Debug, PartialEq, Eq, Structural)]
pub struct Stat {
    pub dev: u32,
    pub ino: u32,
    pub typ: i16,
    pub nlink: i16,
    pub size: u64,
}

/// The metadata of inode `inum` of device `dev`.
pub fn stat(dev: u32, inum: u32, ip: &InodeInner) -> (r: Stat)
    ensures
        r == (Stat { dev, ino: inum, typ: ip.typ, nlink: ip.nlink, size: ip.size as u64 }),
{
    Stat { dev, ino: inum, typ: ip.typ, nlink: ip.nlink, size: ip.size as u64 }
}

/// Device block that holds block `bn` of the file.
fn bmap_read(ip: &InodeInner, cache: &Disk, bn: u32) -> (r: u32)
    requires
        mapped(cache@, *ip),
        bn < nblocks(*ip),
    ensures
        r == addr_of(cache@, *ip, bn as int),
        r < cache@.len(),
{
    assert(0 <= addr_of(cache@, *ip, bn as int) < cache@.len());
    if (bn as usize) < NDIRECT {
        ip.addrs[bn as usize]
    } else {
        assert(bn < MAXFILE) by {
            vstd::arithmetic::div_mod::lemma_div_is_ordered(
                ip.size as int + BSIZE - 1,
                MAXFILE * BSIZE + BSIZE - 1,
                BSIZE as int,
            );
            vstd::arithmetic::div_mod::lemma_fundamental_div_mod_converse(
                MAXFILE * BSIZE + BSIZE - 1,
                BSIZE as int,
                MAXFILE as int,
                BSIZE - 1,
            );
        }
        let ind = ip.addrs[NDIRECT];
        if ind == 0 {
            return 0;
        }
        assert(4 * (bn - NDIRECT) + 4 <= 4 * NINDIRECT);
        cache.read_u32(ind as usize, 4 * (bn as usize - NDIRECT))
    }
}

/// Reads `n` bytes from offset `off`, fewer when the file ends first. Fails when `off` is
/// past the end of the file or `off + n` overflows.
pub fn readi(ip: &InodeInner, cache: &Disk, off: u32, n: u32) -> (r: Result<Vec<u8>, ()>)
    requires
        mapped(cache@, *ip),
    ensures
        r is Err == (off > ip.size || off as int + n as int > u32::MAX),
        r is Ok ==> r->Ok_0@ == file_data(cache@, *ip).subrange(
            off as int,
            if off + n > ip.size {
                ip.size as int
            } else {
                off + n
            },
        ),
{
    if off > ip.size || off.checked_add(n).is_none() {
        return Err(());
    }
    let end: u32 = if off + n > ip.size { ip.size } else { off + n };
    let ghost fd = file_data(cache@, *ip);
    let mut out: Vec<u8> = Vec::new();
    let mut i: u32 = off;
    while i < end
        invariant
            mapped(cache@, *ip),
            fd == file_data(cache@, *ip),
            off <= i <= end <= ip.size,
            out@ == fd.subrange(off as int, i as int),
        decreases end - i,
    {
        let bn = i / (BSIZE as u32);
        assert(bn < nblocks(*ip)) by {
            vstd::arithmetic::div_mod::lemma_div_is_ordered(i as int, ip.size as int - 1, BSIZE as int);
            vstd::arithmetic::div_mod::lemma_fundamental_div_mod(ip.size as int - 1, BSIZE as int);
            vstd::arithmetic::div_mod::lemma_fundamental_div_mod(ip.size as int + BSIZE - 1, BSIZE as int);
        }
        let a = bmap_read(ip, cache, bn);
        let b = cache.read_byte(a as usize, (i % (BSIZE as u32)) as usize);
        out.push(b);
        i += 1;
        assert(out@ =~= fd.subrange(off as int, i as int));
    }
    Ok(out)
}

/// The inode's first `m` blocks, and its indirect block if it has one, are data blocks in
/// use that belong to it alone; its other slots are empty.
pub open spec fn owns(c: Seq<Seq<u8>>, sb: Superblock, ip: InodeInner, m: int) -> bool {
    let ind = ip.addrs[NDIRECT as int] as int;
    &&& blocks_wf(c)
    &&& c.len() == sb.size
    &&& sb.layout_ok()
    &&& ip.size <= MAXFILE * BSIZE
    &&& nblocks(ip) <= m <= MAXFILE
    &&& forall|bn: int|
        0 <= bn < m ==> sb.data_start() <= #[trigger] addr_of(c, ip, bn) < sb.size && allocated(
            c,
            sb,
            addr_of(c, ip, bn),
        )
    &&& forall|b1: int, b2: int|
        0 <= b1 < m && 0 <= b2 < m && b1 != b2 ==> #[trigger] addr_of(c, ip, b1) != #[trigger] addr_of(
            c,
            ip,
            b2,
        )
    &&& forall|bn: int| m <= bn < NDIRECT ==> #[trigger] ip.addrs[bn] == 0
    &&& m > NDIRECT ==> ind != 0
    &&& ind != 0 ==> {
        &&& sb.data_start() <= ind < sb.size
        &&& allocated(c, sb, ind)
        &&& forall|bn: int| 0 <= bn < m ==> #[trigger] addr_of(c, ip, bn) != ind
        &&& forall|bn: int| m <= bn < MAXFILE && NDIRECT <= bn ==> #[trigger] get_u32(c[ind], 4 * (bn - NDIRECT)) == 0
    }
}

/// Block `x` is in use in cache `c`, lies outside the bitmap, and is none of the first `m`
/// blocks of the inode nor its indirect block.
pub open spec fn other_block(c: Seq<Seq<u8>>, sb: Superblock, ip: InodeInner, m: int, x: int) -> bool {
    &&& 0 <= x < c.len()
    &&& allocated(c, sb, x)
    &&& !(sb.bmapstart <= x < sb.data_start())
    &&& forall|k: int| 0 <= k < m ==> #[trigger] addr_of(c, ip, k) != x
    &&& x != ip.addrs[NDIRECT as int]
}

/// Going from cache `c0` with inode `ip0` of `m0` blocks to cache `c1` with inode `ip1`
/// changed no block but the inode's own and fresh ones: the inode's first `m0` blocks are
/// where they were, its other blocks and a new indirect block were free in `c0`, and every
/// other block in use keeps its contents and stays in use.
pub open spec fn grows_only(c0: Seq<Seq<u8>>, c1: Seq<Seq<u8>>, sb: Superblock, ip0: InodeInner, m0: int, ip1: InodeInner, m1: int) -> bool {
    &&& forall|k: int| 0 <= k < m0 ==> #[trigger] addr_of(c1, ip1, k) == addr_of(c0, ip0, k)
    &&& forall|k: int| m0 <= k < m1 ==> !allocated(c0, sb, #[trigger] addr_of(c1, ip1, k))
    &&& ip1.addrs[NDIRECT as int] == ip0.addrs[NDIRECT as int] || (ip0.addrs[NDIRECT as int] == 0 && !allocated(
        c0,
        sb,
        ip1.addrs[NDIRECT as int] as int,
    ))
    &&& forall|x: int| #[trigger] other_block(c0, sb, ip0, m0, x) ==> c1[x] == c0[x] && allocated(c1, sb, x)
}

/// Two steps that each change only the inode's own and fresh blocks make one such step.
pub proof fn lemma_grows_trans(
    c0: Seq<Seq<u8>>,
    c1: Seq<Seq<u8>>,
    c2: Seq<Seq<u8>>,
    sb: Superblock,
    ip0: InodeInner,
    m0: int,
    ip1: InodeInner,
    m1: int,
    ip2: InodeInner,
    m2: int,
)
    requires
        0 <= m0 <= m1 <= m2,
        grows_only(c0, c1, sb, ip0, m0, ip1, m1),
        grows_only(c1, c2, sb, ip1, m1, ip2, m2),
        owns(c0, sb, ip0, m0),
        owns(c2, sb, ip2, m2),
        c1.len() == c0.len(),
    ensures
        grows_only(c0, c2, sb, ip0, m0, ip2, m2),
{
    assert forall|y: int| 0 <= y < c0.len() && allocated(c0, sb, y) && (exists|k: int| m0 <= k < m2 && addr_of(c2, ip2, k) == y
        || (y == ip2.addrs[NDIRECT as int] && ip2.addrs[NDIRECT as int] != 0 && ip2.addrs[NDIRECT as int] != ip0.addrs[NDIRECT as int]))
        implies false by {
        if sb.bmapstart <= y < sb.data_start() {
            if exists|k: int| m0 <= k < m2 && addr_of(c2, ip2, k) == y {
                let k = choose|k: int| m0 <= k < m2 && addr_of(c2, ip2, k) == y;
                assert(sb.data_start() <= addr_of(c2, ip2, k));
            }
        } else if exists|k: int| 0 <= k < m0 && #[trigger] addr_of(c0, ip0, k) == y {
            let k0 = choose|k: int| 0 <= k < m0 && #[trigger] addr_of(c0, ip0, k) == y;
            assert(addr_of(c1, ip1, k0) == y);
            assert(addr_of(c2, ip2, k0) == y);
            if exists|k: int| m0 <= k < m2 && addr_of(c2, ip2, k) == y {
                let k = choose|k: int| m0 <= k < m2 && addr_of(c2, ip2, k) == y;
                assert(addr_of(c2, ip2, k) != addr_of(c2, ip2, k0));
            } else {
                assert(addr_of(c2, ip2, k0) != ip2.addrs[NDIRECT as int] as int);
            }
        } else if y == ip0.addrs[NDIRECT as int] {
            if exists|k: int| m0 <= k < m2 && addr_of(c2, ip2, k) == y {
                let k = choose|k: int| m0 <= k < m2 && addr_of(c2, ip2, k) == y;
                assert(ip1.addrs[NDIRECT as int] == ip0.addrs[NDIRECT as int]);
                assert(ip2.addrs[NDIRECT as int] == ip0.addrs[NDIRECT as int]);
                assert(addr_of(c2, ip2, k) != ip2.addrs[NDIRECT as int] as int);
            }
        } else {
            assert(other_block(c0, sb, ip0, m0, y));
            assert(allocated(c1, sb, y));
            if exists|k: int| m0 <= k < m2 && addr_of(c2, ip2, k) == y {
                let k = choose|k: int| m0 <= k < m2 && addr_of(c2, ip2, k) == y;
                if k < m1 {
                    assert(addr_of(c1, ip1, k) == y);
                } else {
                    assert(!allocated(c1, sb, addr_of(c2, ip2, k)));
                }
            } else {
                if ip1.addrs[NDIRECT as int] != ip0.addrs[NDIRECT as int] {
                    assert(ip2.addrs[NDIRECT as int] == ip1.addrs[NDIRECT as int] || !allocated(c1, sb, ip2.addrs[NDIRECT as int] as int));
                } else {
                    assert(!allocated(c1, sb, ip2.addrs[NDIRECT as int] as int));
                }
            }
        }
    }
    assert forall|k: int| m0 <= k < m2 implies !allocated(c0, sb, #[trigger] addr_of(c2, ip2, k)) by {
        if allocated(c0, sb, addr_of(c2, ip2, k)) {
            assert(sb.data_start() <= addr_of(c2, ip2, k) < sb.size);
        }
    }
    assert forall|x: int| #[trigger] other_block(c0, sb, ip0, m0, x) implies c2[x] == c0[x] && allocated(c2, sb, x) by {
        assert(allocated(c1, sb, x));
        assert forall|k: int| 0 <= k < m1 implies #[trigger] addr_of(c1, ip1, k) != x by {
            if k < m0 {
                assert(addr_of(c1, ip1, k) == addr_of(c0, ip0, k));
            } else {
                assert(!allocated(c0, sb, addr_of(c1, ip1, k)));
            }
        }
        if ip1.addrs[NDIRECT as int] != ip0.addrs[NDIRECT as int] {
            assert(!allocated(c0, sb, ip1.addrs[NDIRECT as int] as int));
        }
        assert(other_block(c1, sb, ip1, m1, x));
    }
    assert forall|k: int| 0 <= k < m0 implies #[trigger] addr_of(c2, ip2, k) == addr_of(c0, ip0, k) by {
        assert(addr_of(c2, ip2, k) == addr_of(c1, ip1, k));
    }
    let i0 = ip0.addrs[NDIRECT as int] as int;
    let i1 = ip1.addrs[NDIRECT as int] as int;
    let i2 = ip2.addrs[NDIRECT as int] as int;
    if i2 != i0 {
        if i1 == i0 {
            assert(i0 == 0);
            assert(!allocated(c1, sb, i2));
            if allocated(c0, sb, i2) {
                assert(i2 != 0);
                assert(sb.data_start() <= i2 < sb.size);
                assert forall|k: int| 0 <= k < m0 implies #[trigger] addr_of(c0, ip0, k) != i2 by {
                    assert(addr_of(c2, ip2, k) == addr_of(c0, ip0, k));
                }
                assert(other_block(c0, sb, ip0, m0, i2));
                assert(allocated(c1, sb, i2));
            }
        } else {
            assert(i0 == 0);
            assert(!allocated(c0, sb, i1));
            assert(i2 == i1 || (i1 == 0 && !allocated(c1, sb, i2)));
        }
    }
    assert(ip2.addrs[NDIRECT as int] == ip0.addrs[NDIRECT as int] || (ip0.addrs[NDIRECT as int] == 0 && !allocated(
        c0,
        sb,
        ip2.addrs[NDIRECT as int] as int,
    )));
    assert(forall|k: int| m0 <= k < m2 ==> !allocated(c0, sb, #[trigger] addr_of(c2, ip2, k)));
    assert(forall|x: int| #[trigger] other_block(c0, sb, ip0, m0, x) ==> c2[x] == c0[x] && allocated(c2, sb, x));
}

/// Blocks that the inode owns keep their contents and their bits: the inode still owns
/// them, maps the same blocks, and holds the same bytes.
pub proof fn lemma_owns_frame(c: Seq<Seq<u8>>, c2: Seq<Seq<u8>>, sb: Superblock, ip: InodeInner, m: int)
    requires
        owns(c, sb, ip, m),
        blocks_wf(c2),
        c2.len() == c.len(),
        forall|bn: int| 0 <= bn < m ==> #[trigger] c2[addr_of(c, ip, bn)] == c[addr_of(c, ip, bn)],
        forall|bn: int| 0 <= bn < m ==> allocated(c2, sb, #[trigger] addr_of(c, ip, bn)),
        ip.addrs[NDIRECT as int] != 0 ==> c2[ip.addrs[NDIRECT as int] as int] == c[ip.addrs[NDIRECT as int] as int]
            && allocated(c2, sb, ip.addrs[NDIRECT as int] as int),
    ensures
        owns(c2, sb, ip, m),
        forall|bn: int| 0 <= bn < MAXFILE ==> #[trigger] addr_of(c2, ip, bn) == addr_of(c, ip, bn),
        file_data(c2, ip) == file_data(c, ip),
{
    assert forall|bn: int| 0 <= bn < MAXFILE implies #[trigger] addr_of(c2, ip, bn) == addr_of(c, ip, bn) by {}
    let f = file_data(c, ip);
    let f2 = file_data(c2, ip);
    assert forall|i: int| 0 <= i < f.len() implies f2[i] == f[i] by {
        let bn = i / (BSIZE as int);
        assert(bn < nblocks(ip)) by {
            vstd::arithmetic::div_mod::lemma_div_is_ordered(i, ip.size as int - 1, BSIZE as int);
            vstd::arithmetic::div_mod::lemma_fundamental_div_mod(ip.size as int - 1, BSIZE as int);
            vstd::arithmetic::div_mod::lemma_fundamental_div_mod(ip.size as int + BSIZE - 1, BSIZE as int);
        }
        assert(c2[addr_of(c, ip, bn)] == c[addr_of(c, ip, bn)]);
    }
    assert(f2 =~= f);
}

/// What an inode owns lies in the device.
pub proof fn lemma_owns_mapped(c: Seq<Seq<u8>>, sb: Superblock, ip: InodeInner, m: int)
    requires
        owns(c, sb, ip, m),
    ensures
        mapped(c, ip),
{
    assert forall|bn: int| 0 <= bn < nblocks(ip) implies 0 <= #[trigger] addr_of(c, ip, bn) < c.len() by {
        assert(addr_of(c, ip, bn) < sb.size);
    }
}

/// A block just allocated from a cache in which the inode owned its blocks was none of
/// them; the inode still owns them afterwards.
proof fn lemma_alloc_frame(c0: Seq<Seq<u8>>, c1: Seq<Seq<u8>>, sb: Superblock, ip: InodeInner, m: int, b: int)
    requires
        owns(c0, sb, ip, m),
        blocks_wf(c1),
        c1.len() == c0.len(),
        sb.data_start() <= b < sb.size,
        !allocated(c0, sb, b),
        allocated(c1, sb, b),
        forall|x: int| 0 <= x < sb.size && x != b ==> #[trigger] allocated(c1, sb, x) == allocated(c0, sb, x),
        forall|x: int| 0 <= x < c0.len() && x != b && x != sb.bmapstart + b / (BPB as int) ==> #[trigger] c1[x] == c0[x],
    ensures
        owns(c1, sb, ip, m),
        forall|bn: int| 0 <= bn < MAXFILE ==> #[trigger] addr_of(c1, ip, bn) == addr_of(c0, ip, bn),
        file_data(c1, ip) == file_data(c0, ip),
        forall|bn: int| 0 <= bn < m ==> #[trigger] addr_of(c0, ip, bn) != b,
        ip.addrs[NDIRECT as int] != b,
{
    vstd::arithmetic::div_mod::lemma_div_is_ordered(b, sb.size as int, BPB as int);
    assert forall|bn: int| 0 <= bn < m implies #[trigger] c1[addr_of(c0, ip, bn)] == c0[addr_of(c0, ip, bn)]
        && allocated(c1, sb, addr_of(c0, ip, bn)) && addr_of(c0, ip, bn) != b by {
        assert(allocated(c0, sb, addr_of(c0, ip, bn)));
    }
    lemma_owns_frame(c0, c1, sb, ip, m);
}

/// Device block of block `bn` of the file, allocating it (and the indirect block) when the
/// file is about to grow into it. `None` when the device has no free block.
pub fn bmap(ip: &mut InodeInner, fs: &mut FileSystem, tx: &FsTransaction, bn: u32) -> (r: Option<u32>)
    requires
        old(fs).wf(),
        old(fs).log.outstanding >= 1,
        old(fs).room(5),
        owns(old(fs).cache@, old(fs).sb(), *old(ip), nblocks(*old(ip))),
        bn <= nblocks(*old(ip)),
        bn < MAXFILE,
    ensures
        final(fs).wf(),
        final(fs).superblock == old(fs).superblock,
        final(fs).log.outstanding == old(fs).log.outstanding,
        final(fs).disk@ == old(fs).disk@,
        final(ip).size == old(ip).size,
        final(ip).typ == old(ip).typ,
        final(ip).nlink == old(ip).nlink,
        final(ip).major == old(ip).major,
        final(ip).minor == old(ip).minor,
        final(ip).valid == old(ip).valid,
        file_data(final(fs).cache@, *final(ip)) == file_data(old(fs).cache@, *old(ip)),
        final(fs).log.blocks().len() <= old(fs).log.blocks().len() + 5,
        grows_only(
            old(fs).cache@,
            final(fs).cache@,
            old(fs).sb(),
            *old(ip),
            nblocks(*old(ip)),
            *final(ip),
            if r is Some && bn == nblocks(*old(ip)) { bn + 1 } else { nblocks(*old(ip)) },
        ),
        match r {
            Some(a) => {
                &&& a == addr_of(final(fs).cache@, *final(ip), bn as int)
                &&& owns(final(fs).cache@, final(fs).sb(), *final(ip), if bn == nblocks(*old(ip)) { bn + 1 } else { nblocks(*old(ip)) })
            },
            None => {
                &&& bn == nblocks(*old(ip))
                &&& owns(final(fs).cache@, final(fs).sb(), *final(ip), nblocks(*old(ip)))
                &&& forall|x: int| 0 <= x < final(fs).sb().size ==> #[trigger] allocated(final(fs).cache@, final(fs).sb(), x)
            },
        },
{
    let ghost m = nblocks(*ip);
    let ghost sb = fs.sb();
    let ghost c0 = fs.cache@;
    let ghost ip0 = *ip;
    proof {
        lemma_owns_mapped(c0, sb, *ip, m);
    }
    if (bn as usize) < NDIRECT {
        let a = ip.addrs[bn as usize];
        if a != 0 {
            assert(bn < m);
            return Some(a);
        }
        proof {
            if (bn as int) < m {
                assert(addr_of(c0, ip0, bn as int) >= sb.data_start());
            }
        }
        assert(bn == m);
        match tx.balloc(fs) {
            None => {
                return None;
            },
            Some(b) => {
                proof {
                    lemma_alloc_frame(c0, fs.cache@, sb, ip0, m, b as int);
                }
                ip.addrs[bn as usize] = b;
                proof {
                    let c1 = fs.cache@;
                    assert forall|k: int| 0 <= k < MAXFILE && k != bn implies #[trigger] addr_of(c1, *ip, k) == addr_of(c1, ip0, k) by {}
                    assert(file_data(c1, *ip) =~= file_data(c1, ip0)) by {
                        assert forall|x: int| 0 <= x < ip.size implies #[trigger] file_data(c1, *ip)[x] == file_data(c1, ip0)[x] by {
                            let k = x / (BSIZE as int);
                            assert(k < m) by {
                                vstd::arithmetic::div_mod::lemma_div_is_ordered(x, ip.size as int - 1, BSIZE as int);
                                vstd::arithmetic::div_mod::lemma_fundamental_div_mod(ip.size as int - 1, BSIZE as int);
                                vstd::arithmetic::div_mod::lemma_fundamental_div_mod(ip.size as int + BSIZE - 1, BSIZE as int);
                            }
                        }
                    }
                    assert forall|b1: int, b2: int| 0 <= b1 < m + 1 && 0 <= b2 < m + 1 && b1 != b2 implies #[trigger] addr_of(c1, *ip, b1)
                        != #[trigger] addr_of(c1, *ip, b2) by {
                        if b1 < m && b2 < m {
                            assert(addr_of(c0, ip0, b1) != addr_of(c0, ip0, b2));
                        }
                    }
                }
                return Some(b);
            },
        }
    }
    if ip.addrs[NDIRECT] == 0 {
        assert(m == NDIRECT);
        match tx.balloc(fs) {
            None => {
                return None;
            },
            Some(b) => {
                proof {
                    lemma_alloc_frame(c0, fs.cache@, sb, ip0, m, b as int);
                    crate::disk::lemma_le_zero();
                }
                ip.addrs[NDIRECT] = b;
                proof {
                    let c1 = fs.cache@;
                    assert forall|k: int| 0 <= k < NDIRECT implies #[trigger] addr_of(c1, *ip, k) == addr_of(c1, ip0, k) by {}
                    assert(file_data(c1, *ip) =~= file_data(c1, ip0)) by {
                        assert forall|x: int| 0 <= x < ip.size implies #[trigger] file_data(c1, *ip)[x] == file_data(c1, ip0)[x] by {
                            let k = x / (BSIZE as int);
                            assert(k < m) by {
                                vstd::arithmetic::div_mod::lemma_div_is_ordered(x, ip.size as int - 1, BSIZE as int);
                                vstd::arithmetic::div_mod::lemma_fundamental_div_mod(ip.size as int - 1, BSIZE as int);
                                vstd::arithmetic::div_mod::lemma_fundamental_div_mod(ip.size as int + BSIZE - 1, BSIZE as int);
                            }
                        }
                    }
                    assert forall|k: int| m <= k < MAXFILE && NDIRECT <= k implies #[trigger] get_u32(c1[b as int], 4 * (k - NDIRECT)) == 0 by {
                        assert(c1[b as int] == zero_block());
                    }
                    assert forall|b1: int, b2: int| 0 <= b1 < m && 0 <= b2 < m && b1 != b2 implies #[trigger] addr_of(c1, *ip, b1)
                        != #[trigger] addr_of(c1, *ip, b2) by {
                        assert(addr_of(c0, ip0, b1) != addr_of(c0, ip0, b2));
                    }
                    assert(owns(c1, sb, *ip, m));
                }
            },
        }
    }
    let ind = ip.addrs[NDIRECT];
    let ghost c1 = fs.cache@;
    let ghost ip1 = *ip;
    assert(owns(c1, sb, ip1, m));
    assert(file_data(c1, ip1) == file_data(c0, ip0));
    let e = fs.cache.read_u32(ind as usize, 4 * (bn as usize - NDIRECT));
    assert(e == addr_of(c1, ip1, bn as int));
    if e != 0 {
        return Some(e);
    }
    proof {
        if (bn as int) < m {
            assert(addr_of(c1, ip1, bn as int) >= sb.data_start());
        }
    }
    assert(bn == m);
    match tx.balloc(fs) {
        None => {
            return None;
        },
        Some(a) => {
            proof {
                lemma_alloc_frame(c1, fs.cache@, sb, ip1, m, a as int);
            }
            let ghost c2 = fs.cache@;
            let mut blk = fs.cache.read(ind as usize);
            store_u32(&mut blk, 4 * (bn as usize - NDIRECT), a);
            proof {
                crate::fs::lemma_data_write_frame(c2, sb, ind as int, blk@);
                lemma_entry_update(c2, c2.update(ind as int, blk@), sb, ip1, m, a as int);
            }
            tx.write(fs, ind, blk);
            return Some(a);
        },
    }
}

/// Recording block `a` as the next block `m` of the file in its indirect block makes the
/// inode own `m + 1` blocks and keeps its bytes.
proof fn lemma_entry_update(c2: Seq<Seq<u8>>, c3: Seq<Seq<u8>>, sb: Superblock, ip: InodeInner, m: int, a: int)
    requires
        owns(c2, sb, ip, m),
        NDIRECT <= m < MAXFILE,
        ip.addrs[NDIRECT as int] != 0,
        nblocks(ip) == m,
        sb.data_start() <= a < sb.size,
        allocated(c2, sb, a),
        a != ip.addrs[NDIRECT as int],
        forall|bn: int| 0 <= bn < m ==> #[trigger] addr_of(c2, ip, bn) != a,
        c3 == c2.update(ip.addrs[NDIRECT as int] as int, put_u32(c2[ip.addrs[NDIRECT as int] as int], 4 * (m - NDIRECT), a as u32)),
        forall|x: int| 0 <= x < sb.size ==> #[trigger] allocated(c3, sb, x) == allocated(c2, sb, x),
    ensures
        owns(c3, sb, ip, m + 1),
        addr_of(c3, ip, m) == a,
        file_data(c3, ip) == file_data(c2, ip),
{
    let ind = ip.addrs[NDIRECT as int] as int;
    let h = c2[ind];
    assert(h.len() == BSIZE);
    assert forall|k: int| 0 <= k < MAXFILE && k != m implies #[trigger] addr_of(c3, ip, k) == addr_of(c2, ip, k) by {
        if k >= NDIRECT {
            lemma_put_get(h, 4 * (m - NDIRECT), a as u32, 4 * (k - NDIRECT));
        }
    }
    lemma_put_get(h, 4 * (m - NDIRECT), a as u32, 0);
    assert(addr_of(c3, ip, m) == a);
    assert(blocks_wf(c3)) by {
        assert forall|x: int| 0 <= x < c3.len() implies #[trigger] c3[x].len() == BSIZE by {
            if x != ind {
                assert(c3[x] == c2[x]);
            }
        }
    }
    assert forall|b1: int, b2: int| 0 <= b1 < m + 1 && 0 <= b2 < m + 1 && b1 != b2 implies #[trigger] addr_of(c3, ip, b1)
        != #[trigger] addr_of(c3, ip, b2) by {
        if b1 < m && b2 < m {
            assert(addr_of(c2, ip, b1) != addr_of(c2, ip, b2));
        }
    }
    assert forall|bn: int| 0 <= bn < m + 1 implies sb.data_start() <= #[trigger] addr_of(c3, ip, bn) < sb.size
        && allocated(c3, sb, addr_of(c3, ip, bn)) by {}
    assert forall|bn: int| 0 <= bn < m + 1 implies #[trigger] addr_of(c3, ip, bn) != ind by {}
    assert forall|bn: int| m + 1 <= bn < MAXFILE && NDIRECT <= bn implies #[trigger] get_u32(c3[ind], 4 * (bn - NDIRECT))
        == 0 by {
        lemma_put_get(h, 4 * (m - NDIRECT), a as u32, 4 * (bn - NDIRECT));
    }
    let f = file_data(c2, ip);
    let f3 = file_data(c3, ip);
    assert forall|i: int| 0 <= i < f.len() implies f3[i] == f[i] by {
        let bn = i / (BSIZE as int);
        assert(bn < m) by {
            vstd::arithmetic::div_mod::lemma_div_is_ordered(i, ip.size as int - 1, BSIZE as int);
            vstd::arithmetic::div_mod::lemma_fundamental_div_mod(ip.size as int - 1, BSIZE as int);
            vstd::arithmetic::div_mod::lemma_fundamental_div_mod(ip.size as int + BSIZE - 1, BSIZE as int);
        }
        assert(addr_of(c2, ip, bn) != ind);
    }
    assert(f3 =~= f);
}

/// The file after the bytes of `src` were written at `off`, `k` of them so far, over a file
/// of `size` bytes whose contents were `fd`.
pub open spec fn written(fd: Seq<u8>, size: int, src: Seq<u8>, off: int, k: int) -> Seq<u8> {
    let end = if off + k > size { off + k } else { size };
    Seq::new(end as nat, |i: int| if off <= i < off + k { src[i - off] } else { fd[i] })
}

/// Growing a file from `s1` bytes to `s2`, by bytes `[cur, cur + m)` of block `bn`, with
/// `cur <= s1`, leaves it `bn + 1` blocks long if `bn` was new, else as many as before.
proof fn lemma_grow(s1: int, cur: int, m: int, bn: int, lo: int)
    requires
        0 <= cur <= s1,
        0 <= lo < BSIZE,
        cur == bn * BSIZE + lo,
        0 < m,
        lo + m <= BSIZE,
        bn <= (s1 + BSIZE - 1) / (BSIZE as int),
    ensures
        ({
            let s2 = if cur + m > s1 { cur + m } else { s1 };
            let n1 = (s1 + BSIZE - 1) / (BSIZE as int);
            (s2 + BSIZE - 1) / (BSIZE as int) == if bn == n1 { bn + 1 } else { n1 }
        }),
{
    let b = BSIZE as int;
    let n1 = (s1 + b - 1) / b;
    let s2 = if cur + m > s1 { cur + m } else { s1 };
    vstd::arithmetic::div_mod::lemma_fundamental_div_mod(s1 + b - 1, b);
    let r0 = (s1 + b - 1) % b;
    assert(s1 + b - 1 == n1 * b + r0);
    if bn == n1 {
        assert(bn * b >= s1);
        assert(s2 == cur + m);
        vstd::arithmetic::div_mod::lemma_fundamental_div_mod_converse(s2 + b - 1, b, bn + 1, lo + m - 1);
    } else {
        assert(bn < n1);
        assert((bn + 1) * b <= n1 * b) by (nonlinear_arith)
            requires
                bn + 1 <= n1,
                b > 0,
        ;
        if cur + m > s1 {
            vstd::arithmetic::div_mod::lemma_fundamental_div_mod_converse(s2 + b - 1, b, n1, s2 + b - 1 - n1 * b);
        }
    }
}

/// Writing bytes `[lo, lo + m)` of the file's block `bn`, at device block `a`, and growing
/// the file to cover them, gives the file the expected bytes.
proof fn lemma_write_block(
    c1: Seq<Seq<u8>>,
    c2: Seq<Seq<u8>>,
    sb: Superblock,
    ip1: InodeInner,
    ip2: InodeInner,
    mm: int,
    fd0: Seq<u8>,
    size0: int,
    src: Seq<u8>,
    off: int,
    k: int,
    m: int,
    bn: int,
    lo: int,
    blk: Seq<u8>,
)
    requires
        owns(c1, sb, ip1, mm),
        file_data(c1, ip1) == written(fd0, size0, src, off, k),
        ip1.size == (if off + k > size0 { off + k } else { size0 }),
        0 <= off <= size0,
        0 <= k,
        0 < m,
        k + m <= src.len(),
        off + k == bn * BSIZE + lo,
        0 <= lo,
        lo + m <= BSIZE,
        0 <= bn < mm,
        mm == (ip2.size as int + BSIZE - 1) / (BSIZE as int),
        ip2.size as int == (if off + k + m > ip1.size { off + k + m } else { ip1.size as int }),
        ip2.addrs == ip1.addrs,
        ip2.size <= MAXFILE * BSIZE,
        blk.len() == BSIZE,
        forall|j: int| 0 <= j < BSIZE ==> #[trigger] blk[j] == if lo <= j < lo + m {
            src[k + j - lo]
        } else {
            c1[addr_of(c1, ip1, bn)][j]
        },
        c2 == c1.update(addr_of(c1, ip1, bn), blk),
        forall|x: int| 0 <= x < sb.size ==> #[trigger] allocated(c2, sb, x) == allocated(c1, sb, x),
    ensures
        owns(c2, sb, ip2, mm),
        file_data(c2, ip2) == written(fd0, size0, src, off, k + m),
        grows_only(c1, c2, sb, ip1, mm, ip2, mm),
{
    let a = addr_of(c1, ip1, bn);
    let ind = ip1.addrs[NDIRECT as int] as int;
    let b = BSIZE as int;
    assert forall|x: int| 0 <= x < MAXFILE implies #[trigger] addr_of(c2, ip2, x) == addr_of(c1, ip1, x) by {
        if ind != 0 {
            assert(a != ind);
        }
    }
    assert(blocks_wf(c2)) by {
        assert forall|x: int| 0 <= x < c2.len() implies #[trigger] c2[x].len() == BSIZE by {
            if x != a {
                assert(c2[x] == c1[x]);
            }
        }
    }
    assert forall|b1: int, b2: int| 0 <= b1 < mm && 0 <= b2 < mm && b1 != b2 implies #[trigger] addr_of(c2, ip2, b1)
        != #[trigger] addr_of(c2, ip2, b2) by {
        assert(addr_of(c1, ip1, b1) != addr_of(c1, ip1, b2));
    }
    assert forall|x: int| 0 <= x < mm implies sb.data_start() <= #[trigger] addr_of(c2, ip2, x) < sb.size && allocated(
        c2,
        sb,
        addr_of(c2, ip2, x),
    ) by {
        assert(allocated(c1, sb, addr_of(c1, ip1, x)));
    }
    if ind != 0 {
        assert(c2[ind] == c1[ind]);
        assert(allocated(c1, sb, ind));
    }
    assert forall|x: int| #[trigger] other_block(c1, sb, ip1, mm, x) implies c2[x] == c1[x] && allocated(c2, sb, x) by {
        assert(addr_of(c1, ip1, bn) != x);
    }
    let e = written(fd0, size0, src, off, k + m);
    let f2 = file_data(c2, ip2);
    let f1 = file_data(c1, ip1);
    assert forall|i: int| 0 <= i < f2.len() implies f2[i] == e[i] by {
        let bi = i / b;
        let j = i % b;
        vstd::arithmetic::div_mod::lemma_fundamental_div_mod(i, b);
        assert(bi < mm) by {
            vstd::arithmetic::div_mod::lemma_div_is_ordered(i, ip2.size as int - 1, b);
            vstd::arithmetic::div_mod::lemma_fundamental_div_mod(ip2.size as int - 1, b);
            vstd::arithmetic::div_mod::lemma_fundamental_div_mod(ip2.size as int + b - 1, b);
        }
        if bi == bn {
            assert(i == bn * b + j);
            if lo <= j < lo + m {
                assert(f2[i] == src[k + j - lo]);
            } else {
                assert(i < off + k || i >= off + k + m);
                assert(i < ip1.size);
                assert(f1[i] == c1[a][j]);
            }
        } else {
            assert(addr_of(c1, ip1, bi) != a);
            if i >= ip1.size {
                assert(off + k <= i < off + k + m);
                assert(bi == bn) by {
                    vstd::arithmetic::div_mod::lemma_fundamental_div_mod_converse(i, b, bn, i - bn * b);
                }
            }
            assert(f1[i] == c1[addr_of(c1, ip1, bi)][j]);
            if off + k <= i < off + k + m {
                vstd::arithmetic::div_mod::lemma_fundamental_div_mod_converse(i, b, bn, i - bn * b);
            }
        }
    }
    assert(f2 =~= e);
}

/// Writes the bytes of `src` at offset `off`, growing the file when they reach past its
/// end. Fails when `off` is past the end or the write would pass the largest file size.
/// Stops early only when the device has no free block or the transaction has no room
/// left; the count says how many bytes were written. The new size is in the copy `ip`;
/// `dinode::iupdate` writes it to the inode table.
pub fn writei(ip: &mut InodeInner, fs: &mut FileSystem, tx: &FsTransaction, off: u32, src: &Vec<u8>) -> (r: Result<usize, ()>)
    requires
        old(fs).wf(),
        old(fs).log.outstanding >= 1,
        owns(old(fs).cache@, old(fs).sb(), *old(ip), nblocks(*old(ip))),
        src@.len() <= u32::MAX,
    ensures
        final(fs).wf(),
        final(fs).superblock == old(fs).superblock,
        final(fs).log.outstanding == old(fs).log.outstanding,
        final(fs).disk@ == old(fs).disk@,
        final(ip).typ == old(ip).typ,
        final(ip).nlink == old(ip).nlink,
        final(ip).major == old(ip).major,
        final(ip).minor == old(ip).minor,
        final(ip).valid == old(ip).valid,
        r is Err == (off > old(ip).size || off + src@.len() > MAXFILE * BSIZE),
        r is Err ==> *final(fs) == *old(fs),
        r is Err ==> *final(ip) == *old(ip) && final(fs).cache@ == old(fs).cache@,
        r is Ok ==> {
            let k = r->Ok_0 as int;
            &&& k <= src@.len()
            &&& final(ip).size == if off + k > old(ip).size { off + k } else { old(ip).size as int }
            &&& owns(final(fs).cache@, final(fs).sb(), *final(ip), nblocks(*final(ip)))
            &&& grows_only(old(fs).cache@, final(fs).cache@, old(fs).sb(), *old(ip), nblocks(*old(ip)), *final(ip), nblocks(*final(ip)))
            &&& file_data(final(fs).cache@, *final(ip)) == written(
                file_data(old(fs).cache@, *old(ip)),
                old(ip).size as int,
                src@,
                off as int,
                k,
            )
            &&& k < src@.len() ==> !final(fs).room(6) || forall|x: int|
                0 <= x < final(fs).sb().size ==> #[trigger] allocated(final(fs).cache@, final(fs).sb(), x)
            &&& (old(fs).room(6) && (off as int % BSIZE as int) + src@.len() <= BSIZE) || (old(fs).log.blocks().len() == 0
                && old(fs).log.size > 24 && src@.len() <= 3 * BSIZE) ==> k == src@.len() || (off + k >= old(ip).size && forall|x: int|
                0 <= x < final(fs).sb().size ==> #[trigger] allocated(final(fs).cache@, final(fs).sb(), x))
            &&& (off as int % BSIZE as int) + src@.len() <= BSIZE ==> final(fs).log.blocks().len() <= old(fs).log.blocks().len() + 6
        },
{
    let n = src.len();
    if off > ip.size || off as u64 + n as u64 > (MAXFILE * BSIZE) as u64 {
        return Err(());
    }
    let ghost sb = fs.sb();
    let ghost fd0 = file_data(fs.cache@, *ip);
    let ghost size0 = ip.size as int;
    let ghost ip0 = *ip;
    let ghost c0 = fs.cache@;
    let mut k: usize = 0;
    let mut stop = false;
    let ghost mut it: int = 0;
    let ghost len0 = fs.log.blocks().len() as int;
    let ghost single = (off as int % BSIZE as int) + n <= BSIZE;
    let ghost hyp = (fs.room(6) && single) || (fs.log.blocks().len() == 0 && fs.log.size > 24 && n <= 3 * BSIZE);
    assert(file_data(fs.cache@, *ip) =~= written(fd0, size0, src@, off as int, 0));
    assert(grows_only(c0, fs.cache@, sb, ip0, nblocks(ip0), *ip, nblocks(*ip)));
    while k < n && !stop
        invariant
            fs.wf(),
            fs.sb() == sb,
            fs.superblock == old(fs).superblock,
            fs.log.outstanding == old(fs).log.outstanding,
            fs.log.outstanding >= 1,
            fs.disk@ == old(fs).disk@,
            ip.typ == ip0.typ,
            ip.nlink == ip0.nlink,
            ip.major == ip0.major,
            ip.minor == ip0.minor,
            ip.valid == ip0.valid,
            n == src@.len(),
            off <= size0,
            off + n <= MAXFILE * BSIZE,
            k <= n,
            ip.size == if off + k > size0 { off + k } else { size0 },
            owns(fs.cache@, sb, *ip, nblocks(*ip)),
            owns(c0, sb, ip0, nblocks(ip0)),
            c0.len() == fs.cache@.len(),
            nblocks(ip0) <= nblocks(*ip),
            grows_only(c0, fs.cache@, sb, ip0, nblocks(ip0), *ip, nblocks(*ip)),
            file_data(fs.cache@, *ip) == written(fd0, size0, src@, off as int, k as int),
            0 <= it,
            len0 == old(fs).log.blocks().len(),
            single == ((off as int % BSIZE as int) + n <= BSIZE),
            hyp == ((old(fs).room(6) && single) || (len0 == 0 && old(fs).log.size > 24 && n <= 3 * BSIZE)),
            fs.log.size == old(fs).log.size,
            fs.log.blocks().len() <= len0 + 6 * it,
            k == 0 && !stop ==> it == 0,
            k > 0 && k < n ==> (off + k) % (BSIZE as int) == 0,
            it > 0 && k < n && !stop ==> k >= (it - 1) * BSIZE + 1,
            single && k > 0 ==> k == n,
            single ==> it <= 1,
            stop && hyp ==> off + k >= size0 && forall|x: int| 0 <= x < sb.size ==> #[trigger] allocated(fs.cache@, sb, x),
            stop ==> !fs.room(6) || forall|x: int| 0 <= x < sb.size ==> #[trigger] allocated(fs.cache@, sb, x),
        decreases n - k, if stop { 0int } else { 1int },
    {
        let len = fs.log.len();
        proof {
            if hyp && !single {
                if it > 0 {
                    assert(it <= 3) by (nonlinear_arith)
                        requires
                            k >= (it - 1) * 1024 + 1,
                            k < n,
                            n <= 3072,
                    ;
                }
                assert(fs.log.blocks().len() <= 18) by (nonlinear_arith)
                    requires
                        fs.log.blocks().len() <= len0 + 6 * it,
                        len0 == 0,
                        it <= 3,
                ;
            }
        }
        if len + 6 > LOGSIZE || len as u64 + 6 >= fs.log.size as u64 {
            stop = true;
        } else {
            let cur = off + k as u32;
            let bn = cur / (BSIZE as u32);
            let lo = cur % (BSIZE as u32);
            let m: u32 = if (n - k) < (BSIZE as u32 - lo) as usize { (n - k) as u32 } else { BSIZE as u32 - lo };
            proof {
                vstd::arithmetic::div_mod::lemma_fundamental_div_mod(cur as int, BSIZE as int);
                vstd::arithmetic::div_mod::lemma_div_is_ordered(cur as int, ip.size as int + BSIZE - 1, BSIZE as int);
                vstd::arithmetic::div_mod::lemma_div_is_ordered(cur as int, MAXFILE * BSIZE - 1, BSIZE as int);
                vstd::arithmetic::div_mod::lemma_fundamental_div_mod_converse(MAXFILE * BSIZE - 1, BSIZE as int, MAXFILE - 1, BSIZE - 1);
            }
            let ghost s1 = ip.size as int;
            let ghost ipb = *ip;
            let ghost cb = fs.cache@;
            match bmap(ip, fs, tx, bn) {
                None => {
                    proof {
                        assert(bn * BSIZE >= ipb.size) by {
                            vstd::arithmetic::div_mod::lemma_fundamental_div_mod(ipb.size as int + BSIZE - 1, BSIZE as int);
                        }
                        it = it + 1;
                        lemma_grows_trans(c0, cb, fs.cache@, sb, ip0, nblocks(ip0), ipb, nblocks(ipb), *ip, nblocks(ipb));
                    }
                    stop = true;
                },
                Some(a) => {
                    let ghost c1 = fs.cache@;
                    let ghost ip1 = *ip;
                    let ghost mm = if bn == nblocks(ipb) { bn + 1 } else { nblocks(ipb) };
                    proof {
                        assert(addr_of(c1, ip1, bn as int) < sb.size);
                    }
                    let mut blk = fs.cache.read(a as usize);
                    let ghost old_blk = blk@;
                    let mut j: u32 = 0;
                    while j < m
                        invariant
                            j <= m,
                            lo + m <= BSIZE,
                            k + m <= n,
                            n == src@.len(),
                            blk@.len() == BSIZE,
                            old_blk.len() == BSIZE,
                            forall|t: int| 0 <= t < BSIZE ==> #[trigger] blk@[t] == if lo <= t < lo + j {
                                src@[k + t - lo]
                            } else {
                                old_blk[t]
                            },
                        decreases m - j,
                    {
                        blk.set((lo + j) as usize, src[k + j as usize]);
                        j += 1;
                    }
                    proof {
                        crate::fs::lemma_data_write_frame(c1, sb, a as int, blk@);
                    }
                    tx.write(fs, a, blk);
                    if cur + m > ip.size {
                        ip.size = cur + m;
                    }
                    proof {
                        lemma_grow(s1, cur as int, m as int, bn as int, lo as int);
                        lemma_grows_trans(c0, cb, c1, sb, ip0, nblocks(ip0), ipb, nblocks(ipb), ip1, mm);
                        lemma_write_block(c1, fs.cache@, sb, ip1, *ip, mm, fd0, size0, src@, off as int, k as int, m as int, bn as int, lo as int, blk@);
                        lemma_grows_trans(c0, c1, fs.cache@, sb, ip0, nblocks(ip0), ip1, mm, *ip, mm);
                    }
                    proof {
                        it = it + 1;
                        if k + m < n {
                            assert(m == BSIZE - lo);
                        }
                    }
                    k = k + m as usize;
                },
            }
        }
    }
    Ok(k)
}

/// What was written reads back: the bytes at `[off, off + k)` are those written.
pub proof fn lemma_written_reads_back(fd: Seq<u8>, size: int, src: Seq<u8>, off: int, k: int)
    requires
        0 <= off <= size,
        size <= fd.len(),
        0 <= k <= src.len(),
    ensures
        written(fd, size, src, off, k).subrange(off, off + k) == src.subrange(0, k),
        forall|i: int| 0 <= i < off ==> #[trigger] written(fd, size, src, off, k)[i] == fd[i],
        written(fd, size, src, off, k).len() == if off + k > size { off + k } else { size },
{
    assert(written(fd, size, src, off, k).subrange(off, off + k) =~= src.subrange(0, k));
}

/// Frees every block of the file, data and indirect, last first, and empties it. `false`
/// when the transaction ran out of room first: the file then keeps its first blocks and is
/// cut to them.
pub fn itrunc(ip: &mut InodeInner, fs: &mut FileSystem, tx: &FsTransaction) -> (done: bool)
    requires
        old(fs).wf(),
        old(fs).log.outstanding >= 1,
        owns(old(fs).cache@, old(fs).sb(), *old(ip), nblocks(*old(ip))),
    ensures
        final(fs).wf(),
        final(fs).superblock == old(fs).superblock,
        final(fs).log.outstanding == old(fs).log.outstanding,
        final(fs).disk@ == old(fs).disk@,
        final(ip).typ == old(ip).typ,
        final(ip).nlink == old(ip).nlink,
        final(ip).valid == old(ip).valid,
        final(ip).size <= old(ip).size,
        owns(final(fs).cache@, final(fs).sb(), *final(ip), nblocks(*final(ip))),
        file_data(final(fs).cache@, *final(ip)) == file_data(old(fs).cache@, *old(ip)).subrange(0, final(ip).size as int),
        forall|bn: int| nblocks(*final(ip)) <= bn < nblocks(*old(ip)) ==> !allocated(
            final(fs).cache@,
            final(fs).sb(),
            #[trigger] addr_of(old(fs).cache@, *old(ip), bn),
        ),
        !done ==> !final(fs).room(2),
        done ==> final(ip).size == 0,
        done ==> forall|bn: int| 0 <= bn <= NDIRECT ==> #[trigger] final(ip).addrs[bn] == 0,
        done && old(ip).addrs[NDIRECT as int] != 0 ==> !allocated(
            final(fs).cache@,
            final(fs).sb(),
            old(ip).addrs[NDIRECT as int] as int,
        ),
{
    let ghost sb = fs.sb();
    let ghost c0 = fs.cache@;
    let ghost ip0 = *ip;
    let ghost fd0 = file_data(c0, ip0);
    let mut nb: u32 = ((ip.size as u64 + BSIZE as u64 - 1) / BSIZE as u64) as u32;
    assert(nb == nblocks(ip0));
    assert(fd0.subrange(0, ip0.size as int) =~= fd0);
    while nb > 0
        invariant
            fs.wf(),
            fs.sb() == sb,
            fs.superblock == old(fs).superblock,
            fs.log.outstanding == old(fs).log.outstanding,
            fs.log.outstanding >= 1,
            fs.disk@ == old(fs).disk@,
            ip0 == *old(ip),
            c0 == old(fs).cache@,
            fd0 == file_data(c0, ip0),
            fd0.len() == ip0.size,
            owns(c0, sb, ip0, nblocks(ip0)),
            ip.typ == ip0.typ,
            ip.nlink == ip0.nlink,
            ip.valid == ip0.valid,
            ip.size <= ip0.size,
            ip.addrs[NDIRECT as int] == ip0.addrs[NDIRECT as int],
            nb == nblocks(*ip),
            nb <= nblocks(ip0),
            owns(fs.cache@, sb, *ip, nb as int),
            forall|bn: int| 0 <= bn < nb ==> #[trigger] addr_of(fs.cache@, *ip, bn) == addr_of(c0, ip0, bn),
            file_data(fs.cache@, *ip) == fd0.subrange(0, ip.size as int),
            forall|bn: int| nb <= bn < nblocks(ip0) ==> !allocated(fs.cache@, sb, #[trigger] addr_of(c0, ip0, bn)),
        decreases nb,
    {
        let len = fs.log.len();
        if len + 2 > LOGSIZE || len as u64 + 2 >= fs.log.size as u64 {
            return false;
        }
        let bn = nb - 1;
        proof {
            lemma_owns_mapped(fs.cache@, sb, *ip, nb as int);
        }
        let a = bmap_read(ip, &fs.cache, bn);
        assert(allocated(fs.cache@, sb, a as int));
        let ghost c1 = fs.cache@;
        let ghost ip1 = *ip;
        proof {
            vstd::arithmetic::div_mod::lemma_div_is_ordered(a as int, sb.size as int, BPB as int);
        }
        tx.bfree(fs, a);
        if (bn as usize) < NDIRECT {
            ip.addrs[bn as usize] = 0;
        } else {
            let ind = ip.addrs[NDIRECT];
            let mut blk = fs.cache.read(ind as usize);
            store_u32(&mut blk, 4 * (bn as usize - NDIRECT), 0);
            proof {
                crate::fs::lemma_data_write_frame(fs.cache@, sb, ind as int, blk@);
            }
            tx.write(fs, ind, blk);
        }
        ip.size = bn * (BSIZE as u32);
        proof {
            lemma_trunc_step(c1, fs.cache@, sb, ip1, *ip, bn as int, a as int);
            assert(a == addr_of(c0, ip0, bn as int));
            assert(!allocated(fs.cache@, sb, a as int));
            assert(file_data(c1, ip1) == fd0.subrange(0, ip1.size as int));
            assert(fd0.subrange(0, ip1.size as int).subrange(0, bn * BSIZE) =~= fd0.subrange(0, bn * BSIZE));
            assert forall|k: int| bn <= k < nblocks(ip0) implies !allocated(fs.cache@, sb, #[trigger] addr_of(c0, ip0, k)) by {
                if k > bn {
                    assert(addr_of(c0, ip0, k) != addr_of(c0, ip0, bn as int));
                    assert(!allocated(c1, sb, addr_of(c0, ip0, k)));
                    assert(0 <= addr_of(c0, ip0, k) < sb.size);
                    assert(allocated(fs.cache@, sb, addr_of(c0, ip0, k)) == allocated(c1, sb, addr_of(c0, ip0, k)));
                }
            }
            assert(file_data(fs.cache@, *ip) =~= fd0.subrange(0, ip.size as int));
        }
        nb = bn;
    }
    let ind = ip.addrs[NDIRECT];
    if ind != 0 {
        let len = fs.log.len();
        if len + 1 > LOGSIZE || len as u64 + 1 >= fs.log.size as u64 {
            return false;
        }
        let ghost c1 = fs.cache@;
        proof {
            vstd::arithmetic::div_mod::lemma_div_is_ordered(ind as int, sb.size as int, BPB as int);
        }
        tx.bfree(fs, ind);
        ip.addrs[NDIRECT] = 0;
        proof {
            assert forall|k: int| 0 <= k < nblocks(ip0) implies !allocated(fs.cache@, sb, #[trigger] addr_of(c0, ip0, k)) by {
                assert(addr_of(c0, ip0, k) != ind as int);
            }
            assert(file_data(fs.cache@, *ip) =~= fd0.subrange(0, 0));
        }
    }
    assert forall|bn: int| 0 <= bn <= NDIRECT implies #[trigger] ip.addrs[bn] == 0 by {}
    proof {
        assert(file_data(fs.cache@, *ip) =~= fd0.subrange(0, 0));
    }
    true
}

/// Freeing the last block `bn` of a file and cutting the file to the blocks before it keeps
/// the inode the owner of those blocks and keeps their bytes.
proof fn lemma_trunc_step(c1: Seq<Seq<u8>>, c3: Seq<Seq<u8>>, sb: Superblock, ip1: InodeInner, ip2: InodeInner, bn: int, a: int)
    requires
        owns(c1, sb, ip1, bn + 1),
        nblocks(ip1) == bn + 1,
        a == addr_of(c1, ip1, bn),
        ip2.size == bn * BSIZE,
        ip2.addrs[NDIRECT as int] == ip1.addrs[NDIRECT as int],
        bn < NDIRECT ==> ip2.addrs@ == ip1.addrs@.update(bn, 0u32),
        bn >= NDIRECT ==> ip2.addrs@ == ip1.addrs@,
        bn >= NDIRECT ==> c3[ip1.addrs[NDIRECT as int] as int] == put_u32(c1[ip1.addrs[NDIRECT as int] as int], 4 * (bn - NDIRECT), 0),
        blocks_wf(c3),
        c3.len() == c1.len(),
        forall|x: int| 0 <= x < c1.len() && x != sb.bmapstart + a / (BPB as int) && (bn >= NDIRECT ==> x != ip1.addrs[NDIRECT as int])
            ==> #[trigger] c3[x] == c1[x],
        !allocated(c3, sb, a),
        forall|x: int| 0 <= x < sb.size && x != a ==> #[trigger] allocated(c3, sb, x) == allocated(c1, sb, x),
    ensures
        owns(c3, sb, ip2, bn),
        nblocks(ip2) == bn,
        forall|k: int| 0 <= k < bn ==> #[trigger] addr_of(c3, ip2, k) == addr_of(c1, ip1, k),
        file_data(c3, ip2) == file_data(c1, ip1).subrange(0, bn * BSIZE),
{
    let b = BSIZE as int;
    let ind = ip1.addrs[NDIRECT as int] as int;
    vstd::arithmetic::div_mod::lemma_fundamental_div_mod_converse(bn * b + b - 1, b, bn, b - 1);
    assert(bn * b <= ip1.size) by {
        vstd::arithmetic::div_mod::lemma_fundamental_div_mod(ip1.size as int + b - 1, b);
    }
    if ind != 0 {
        vstd::arithmetic::div_mod::lemma_div_is_ordered(a, sb.size as int, BPB as int);
        assert(c3[ind].len() == BSIZE);
    }
    assert forall|k: int| 0 <= k < MAXFILE && k != bn implies #[trigger] addr_of(c3, ip2, k) == addr_of(c1, ip1, k) by {
        if k >= NDIRECT && ind != 0 {
            if bn >= NDIRECT {
                lemma_put_get(c1[ind], 4 * (bn - NDIRECT), 0, 4 * (k - NDIRECT));
            } else {
                vstd::arithmetic::div_mod::lemma_div_is_ordered(a, sb.size as int, BPB as int);
                assert(ind != sb.bmapstart + a / (BPB as int));
            }
        }
    }
    assert forall|k: int| 0 <= k < bn implies sb.data_start() <= #[trigger] addr_of(c3, ip2, k) < sb.size && allocated(
        c3,
        sb,
        addr_of(c3, ip2, k),
    ) by {
        assert(addr_of(c1, ip1, k) != a);
    }
    assert forall|b1: int, b2: int| 0 <= b1 < bn && 0 <= b2 < bn && b1 != b2 implies #[trigger] addr_of(c3, ip2, b1)
        != #[trigger] addr_of(c3, ip2, b2) by {
        assert(addr_of(c1, ip1, b1) != addr_of(c1, ip1, b2));
    }
    if ind != 0 {
        assert(ind != a);
        assert(allocated(c3, sb, ind));
        assert forall|k: int| bn <= k < MAXFILE && NDIRECT <= k implies #[trigger] get_u32(c3[ind], 4 * (k - NDIRECT)) == 0 by {
            if bn >= NDIRECT {
                lemma_put_get(c1[ind], 4 * (bn - NDIRECT), 0, 4 * (k - NDIRECT));
                if k == bn {
                    crate::disk::lemma_le_round_trip(0);
                }
            } else {
                vstd::arithmetic::div_mod::lemma_div_is_ordered(a, sb.size as int, BPB as int);
                assert(c3[ind] == c1[ind]);
            }
        }
    }
    assert forall|k: int| bn <= k < NDIRECT implies #[trigger] ip2.addrs[k] == 0 by {
        if bn < NDIRECT && k > bn {
            assert(ip2.addrs@[k] == ip1.addrs@[k]);
        }
    }
    let f1 = file_data(c1, ip1);
    let f3 = file_data(c3, ip2);
    assert forall|i: int| 0 <= i < f3.len() implies f3[i] == f1[i] by {
        let k = i / b;
        assert(k < bn) by {
            vstd::arithmetic::div_mod::lemma_div_is_ordered(i, bn * b - 1, b);
            vstd::arithmetic::div_mod::lemma_fundamental_div_mod_converse(bn * b - 1, b, bn - 1, b - 1);
        }
        let x = addr_of(c1, ip1, k);
        assert(x != a);
        vstd::arithmetic::div_mod::lemma_div_is_ordered(a, sb.size as int, BPB as int);
        assert(x != sb.bmapstart + a / (BPB as int));
        if ind != 0 {
            assert(x != ind);
        }
        assert(c3[x] == c1[x]);
    }
    assert(f3 =~= f1.subrange(0, bn * b));
}

} // verus!

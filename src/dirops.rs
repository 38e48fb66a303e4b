//! Link and unlink on directory inodes: the directory's entries are its file data, read and
//! written through the inode layer inside the current transaction. Resolving paths to
//! inodes is left to the caller.
use vstd::prelude::*;

use crate::dir::{dirent, dirent_bytes, dirlink_slot, dirlookup, entry_found, entry_inum, isdirempty, nentries, valid_name};
use crate::fs::{FileSystem, FsTransaction};
use crate::inode::InodeInner;
use crate::inode_io::{addr_of, file_data, grows_only, lemma_owns_frame, lemma_owns_mapped, nblocks, other_block, owns, readi, writei, written};
use crate::dinode::{dinode_off, disk_type, holds_dinode, ialloc, iload, iupdate};
use crate::disk::blocks_wf;
use crate::fs::{allocated, Superblock};
use crate::param::{BPB, BSIZE, DIRENT_SIZE, IPB, LOGSIZE, MAXFILE, NDIRECT, T_DEVICE, T_DIR, T_FILE};
use crate::sysfile::{create_reuses, unlink_allowed, unlink_name_ok};

verus! {

/// Adds an entry named `name` for inode `inum` to directory `dp`, in its first free slot or
/// at its end. Fails, leaving the directory alone, when the name is present; fails too when
/// the write stops short (no free block, or no room in the transaction).
pub fn dirlink(dp: &mut InodeInner, fs: &mut FileSystem, tx: &FsTransaction, name: &Vec<u8>, inum: u16) -> (r: Result<u32, ()>)
    requires
        old(fs).wf(),
        old(fs).log.outstanding >= 1,
        owns(old(fs).cache@, old(fs).sb(), *old(dp), nblocks(*old(dp))),
        valid_name(name@),
        inum != 0,
    ensures
        final(fs).wf(),
        final(fs).superblock == old(fs).superblock,
        final(fs).log.outstanding == old(fs).log.outstanding,
        final(dp).typ == old(dp).typ,
        final(dp).nlink == old(dp).nlink,
        final(dp).major == old(dp).major,
        final(dp).minor == old(dp).minor,
        final(dp).valid == old(dp).valid,
        owns(final(fs).cache@, final(fs).sb(), *final(dp), nblocks(*final(dp))),
        grows_only(old(fs).cache@, final(fs).cache@, old(fs).sb(), *old(dp), nblocks(*old(dp)), *final(dp), nblocks(*final(dp))),
        (exists|k: int| 0 <= k < nentries(file_data(old(fs).cache@, *old(dp))) && #[trigger] entry_found(
            file_data(old(fs).cache@, *old(dp)),
            k,
            name@,
        )) ==> r is Err && *final(dp) == *old(dp) && final(fs).cache@ == old(fs).cache@,
        final(fs).log.blocks().len() <= old(fs).log.blocks().len() + 6,
        r is Err ==> (exists|k: int| 0 <= k < nentries(file_data(old(fs).cache@, *old(dp))) && #[trigger] entry_found(
            file_data(old(fs).cache@, *old(dp)),
            k,
            name@,
        )) || old(dp).size + DIRENT_SIZE > MAXFILE * BSIZE || !old(fs).room(6) || forall|x: int|
            0 <= x < final(fs).sb().size ==> #[trigger] allocated(final(fs).cache@, final(fs).sb(), x),
        r is Ok ==> {
            let d = file_data(old(fs).cache@, *old(dp));
            let off = r->Ok_0 as int;
            &&& off % 16 == 0
            &&& off / 16 <= nentries(d)
            &&& off / 16 < nentries(d) ==> entry_inum(d, off / 16) == 0
            &&& forall|k: int| 0 <= k < off / 16 ==> #[trigger] entry_inum(d, k) != 0
            &&& file_data(final(fs).cache@, *final(dp)) == written(d, old(dp).size as int, dirent_bytes(inum, name@), off, 16)
            &&& entry_found(file_data(final(fs).cache@, *final(dp)), off / 16, name@)
            &&& entry_inum(file_data(final(fs).cache@, *final(dp)), off / 16) == inum
        },
{
    proof {
        lemma_owns_mapped(fs.cache@, fs.sb(), *dp, nblocks(*dp));
        assert(grows_only(fs.cache@, fs.cache@, fs.sb(), *dp, nblocks(*dp), *dp, nblocks(*dp)));
    }
    let d = match readi(dp, &fs.cache, 0, dp.size) {
        Ok(d) => d,
        Err(_) => {
            return Err(());
        },
    };
    assert(d@ =~= file_data(fs.cache@, *dp));
    let off = match dirlink_slot(&d, name) {
        Ok(off) => off,
        Err(_) => {
            return Err(());
        },
    };
    let e = dirent(inum, name);
    assert(off as int <= d@.len()) by {
        vstd::arithmetic::div_mod::lemma_fundamental_div_mod(d@.len() as int, 16);
    }
    let ghost d0 = d@;
    let ghost s0 = dp.size as int;
    proof {
        lemma_slot_in_block(off as int);
    }
    match writei(dp, fs, tx, off, &e) {
        Ok(n) => {
            if n == DIRENT_SIZE {
                proof {
                    assert(e@.subrange(0, 16) =~= e@);
                    lemma_linked_entry(d0, s0, inum, name@, off as int);
                }
                Ok(off)
            } else {
                Err(())
            }
        },
        Err(_) => Err(()),
    }
}

/// Removes the entry named `name` from directory `dp`, where `ip` is the inode that the
/// entry names, and drops a link from `ip` (and from `dp` when `ip` is a directory, for
/// its `..`). Fails, changing nothing, on `.` and `..`, on a name not present, and on a
/// directory that still holds entries. The new link counts are in the copies; `iupdate`
/// writes them to the inode table.
pub fn unlink(
    dp: &mut InodeInner,
    ip: &mut InodeInner,
    fs: &mut FileSystem,
    tx: &FsTransaction,
    name: &Vec<u8>,
) -> (r: Result<(), ()>)
    requires
        old(fs).wf(),
        old(fs).log.outstanding >= 1,
        owns(old(fs).cache@, old(fs).sb(), *old(dp), nblocks(*old(dp))),
        owns(old(fs).cache@, old(fs).sb(), *old(ip), nblocks(*old(ip))),
        valid_name(name@),
        old(ip).nlink >= 1,
        old(dp).nlink >= 1,
        apart(old(fs).cache@, *old(dp), *old(ip)),
    ensures
        final(fs).wf(),
        final(fs).superblock == old(fs).superblock,
        final(fs).log.outstanding == old(fs).log.outstanding,
        final(ip).size == old(ip).size,
        final(ip).addrs == old(ip).addrs,
        final(ip).typ == old(ip).typ,
        ({
            let d = file_data(old(fs).cache@, *old(dp));
            let found = exists|k: int| 0 <= k < nentries(d) && #[trigger] entry_found(d, k, name@);
            let dir_empty = forall|k: int| 2 <= k < nentries(file_data(old(fs).cache@, *old(ip))) ==> #[trigger] entry_inum(
                file_data(old(fs).cache@, *old(ip)),
                k,
            ) == 0;
            &&& (!unlink_ok_name(name@) || !found || (old(ip).typ == T_DIR && !dir_empty)) ==> {
                &&& r is Err
                &&& *final(dp) == *old(dp)
                &&& *final(ip) == *old(ip)
                &&& final(fs).cache@ == old(fs).cache@
            }
            &&& unlink_ok_name(name@) && found && (old(ip).typ != T_DIR || dir_empty) && old(fs).room(6) ==> r is Ok
            &&& owns(final(fs).cache@, final(fs).sb(), *final(ip), nblocks(*final(ip)))
            &&& file_data(final(fs).cache@, *final(ip)) == file_data(old(fs).cache@, *old(ip))
            &&& owns(final(fs).cache@, final(fs).sb(), *final(dp), nblocks(*final(dp)))
            &&& r is Ok ==> {
                &&& exists|k: int|
                    0 <= k < nentries(d) && #[trigger] entry_found(d, k, name@) && (forall|j: int|
                        0 <= j < k ==> !#[trigger] entry_found(d, j, name@)) && file_data(final(fs).cache@, *final(dp))
                        == written(d, old(dp).size as int, Seq::new(16, |i: int| 0u8), 16 * k, 16)
                &&& final(ip).nlink == old(ip).nlink - 1
                &&& final(dp).nlink == old(dp).nlink - if old(ip).typ == T_DIR { 1int } else { 0int }
                &&& final(dp).size == old(dp).size
            }
        }),
{
    if !unlink_name_ok(name) {
        return Err(());
    }
    proof {
        lemma_owns_mapped(fs.cache@, fs.sb(), *dp, nblocks(*dp));
        lemma_owns_mapped(fs.cache@, fs.sb(), *ip, nblocks(*ip));
    }
    let d = match readi(dp, &fs.cache, 0, dp.size) {
        Ok(d) => d,
        Err(_) => {
            return Err(());
        },
    };
    assert(d@ =~= file_data(fs.cache@, *dp));
    let off = match dirlookup(&d, name) {
        Some((_, off)) => off,
        None => {
            return Err(());
        },
    };
    if ip.typ == T_DIR {
        let c = match readi(ip, &fs.cache, 0, ip.size) {
            Ok(c) => c,
            Err(_) => {
                return Err(());
            },
        };
        assert(c@ =~= file_data(fs.cache@, *ip));
        if !unlink_allowed(ip.typ, isdirempty(&c)) {
            return Err(());
        }
    }
    let zero = vec![0u8; DIRENT_SIZE];
    assert(zero@ =~= Seq::new(16, |i: int| 0u8));
    assert(off as int + 16 <= d@.len()) by {
        vstd::arithmetic::div_mod::lemma_fundamental_div_mod(d@.len() as int, 16);
    }
    let ghost k = off as int / 16;
    assert(16 * k == off);
    let ghost c0 = fs.cache@;
    let ghost dp0 = *dp;
    proof {
        lemma_slot_in_block(off as int);
    }
    let res = writei(dp, fs, tx, off, &zero);
    proof {
        if res is Ok {
            lemma_apart_frame(c0, fs.cache@, fs.sb(), dp0, *dp, *ip);
        }
    }
    match res {
        Ok(n) => {
            if n != DIRENT_SIZE {
                return Err(());
            }
        },
        Err(_) => {
            return Err(());
        },
    }
    let ghost dp1 = *dp;
    let ghost ip1 = *ip;
    if ip.typ == T_DIR {
        dp.nlink = dp.nlink - 1;
    }
    ip.nlink = ip.nlink - 1;
    proof {
        lemma_same_blocks(fs.cache@, fs.sb(), dp1, *dp, nblocks(dp1));
        lemma_same_blocks(fs.cache@, fs.sb(), ip1, *ip, nblocks(ip1));
    }
    Ok(())
}

/// `name` may be unlinked: it is neither `.` nor `..`.
pub open spec fn unlink_ok_name(name: Seq<u8>) -> bool {
    !(name == seq![46u8] || name == seq![46u8, 46u8])
}

/// The entry written by `dirlink` at byte `off` is in use, named `name`, for inode `inum`.
pub proof fn lemma_linked_entry(d: Seq<u8>, size: int, inum: u16, name: Seq<u8>, off: int)
    requires
        valid_name(name),
        off % 16 == 0,
        0 <= off <= size,
        size <= d.len(),
        inum != 0,
    ensures
        ({
            let w = written(d, size, dirent_bytes(inum, name), off, 16);
            &&& off / 16 < nentries(w)
            &&& entry_found(w, off / 16, name)
            &&& entry_inum(w, off / 16) == inum
        }),
{
    let e = dirent_bytes(inum, name);
    let w = written(d, size, e, off, 16);
    let k = off / 16;
    vstd::arithmetic::div_mod::lemma_fundamental_div_mod(off, 16);
    assert(16 * k == off);
    assert(w.len() >= off + 16);
    vstd::arithmetic::div_mod::lemma_fundamental_div_mod_converse(w.len() as int, 16, w.len() as int / 16, w.len() as int % 16);
    assert(k < nentries(w)) by {
        vstd::arithmetic::div_mod::lemma_fundamental_div_mod(w.len() as int, 16);
    }
    assert forall|j: int| 0 <= j < 16 implies #[trigger] w[16 * k + j] == e[j] by {}
    assert(entry_inum(w, k) == entry_inum(e, 0));
    let lo = (inum & 0xffu16) as u8;
    let hi = (inum >> 8u16) as u8;
    assert(((lo as u16) | ((hi as u16) << 8u16)) as u16 == inum) by (bit_vector)
        requires
            lo == (inum & 0xffu16) as u8,
            hi == (inum >> 8u16) as u8,
    ;
    assert forall|i: int| 0 <= i < name.len() implies #[trigger] w[16 * k + 2 + i] == name[i] by {
        assert(w[16 * k + (2 + i)] == e[2 + i]);
    }
    if name.len() < 14 {
        assert(w[16 * k + (2 + name.len() as int)] == e[2 + name.len() as int]);
    }
}

/// A write to a block before the bitmap (the inode table) leaves an inode's blocks, their
/// bits and its bytes alone.
proof fn lemma_table_write_frame(c: Seq<Seq<u8>>, c2: Seq<Seq<u8>>, sb: Superblock, ip: InodeInner, m: int, b: int)
    requires
        owns(c, sb, ip, m),
        blocks_wf(c2),
        c2.len() == c.len(),
        0 <= b < sb.bmapstart,
        forall|x: int| 0 <= x < c.len() && x != b ==> #[trigger] c2[x] == c[x],
    ensures
        owns(c2, sb, ip, m),
        file_data(c2, ip) == file_data(c, ip),
        forall|x: int| 0 <= x < sb.size ==> #[trigger] allocated(c2, sb, x) == allocated(c, sb, x),
{
    assert forall|x: int| 0 <= x < sb.size implies #[trigger] allocated(c2, sb, x) == allocated(c, sb, x) by {
        vstd::arithmetic::div_mod::lemma_div_is_ordered(0, x, BPB as int);
        vstd::arithmetic::div_mod::lemma_div_is_ordered(x, sb.size as int, BPB as int);
    }
    assert forall|k: int| 0 <= k < m implies #[trigger] c2[addr_of(c, ip, k)] == c[addr_of(c, ip, k)] by {}
    lemma_owns_frame(c, c2, sb, ip, m);
}

/// Writes to the blocks of one inode leave those of another alone: the other's blocks were
/// in use and not the first inode's.
proof fn lemma_disjoint_frame(
    c0: Seq<Seq<u8>>,
    c1: Seq<Seq<u8>>,
    sb: Superblock,
    ip0: InodeInner,
    m0: int,
    ip1: InodeInner,
    m1: int,
    dp: InodeInner,
    md: int,
)
    requires
        grows_only(c0, c1, sb, ip0, m0, ip1, m1),
        owns(c0, sb, dp, md),
        owns(c1, sb, ip1, m1),
        c1.len() == c0.len(),
        forall|k: int, j: int| 0 <= k < m0 && 0 <= j < md ==> #[trigger] addr_of(c0, ip0, k) != #[trigger] addr_of(c0, dp, j),
        forall|j: int| 0 <= j < md ==> #[trigger] addr_of(c0, dp, j) != ip0.addrs[NDIRECT as int],
        dp.addrs[NDIRECT as int] != 0 ==> dp.addrs[NDIRECT as int] != ip0.addrs[NDIRECT as int] && forall|k: int|
            0 <= k < m0 ==> #[trigger] addr_of(c0, ip0, k) != dp.addrs[NDIRECT as int],
    ensures
        owns(c1, sb, dp, md),
        file_data(c1, dp) == file_data(c0, dp),
        forall|j: int| 0 <= j < crate::param::MAXFILE ==> #[trigger] addr_of(c1, dp, j) == addr_of(c0, dp, j),
{
    assert forall|j: int| 0 <= j < md implies #[trigger] other_block(c0, sb, ip0, m0, addr_of(c0, dp, j)) by {
        vstd::arithmetic::div_mod::lemma_div_is_ordered(0, addr_of(c0, dp, j), 1);
    }
    assert forall|j: int| 0 <= j < md implies c1[#[trigger] addr_of(c0, dp, j)] == c0[addr_of(c0, dp, j)] && allocated(c1, sb, addr_of(c0, dp, j)) by {
        assert(other_block(c0, sb, ip0, m0, addr_of(c0, dp, j)));
    }
    if dp.addrs[NDIRECT as int] != 0 {
        assert(other_block(c0, sb, ip0, m0, dp.addrs[NDIRECT as int] as int));
    }
    lemma_owns_frame(c0, c1, sb, dp, md);
}

/// Two copies of an inode with the same size and addresses own the same blocks and hold
/// the same bytes.
proof fn lemma_same_blocks(c: Seq<Seq<u8>>, sb: Superblock, a: InodeInner, b: InodeInner, m: int)
    requires
        owns(c, sb, a, m),
        a.size == b.size,
        a.addrs == b.addrs,
    ensures
        owns(c, sb, b, m),
        file_data(c, b) == file_data(c, a),
        forall|k: int| #[trigger] addr_of(c, b, k) == addr_of(c, a, k),
{
    assert forall|k: int| #[trigger] addr_of(c, b, k) == addr_of(c, a, k) by {}
    assert(file_data(c, b) =~= file_data(c, a));
}

/// A new inode of type `typ` with no blocks: it owns nothing.
proof fn lemma_empty_owns(c: Seq<Seq<u8>>, sb: Superblock, ip: InodeInner)
    requires
        blocks_wf(c),
        c.len() == sb.size,
        sb.layout_ok(),
        ip.size == 0,
        forall|k: int| 0 <= k < 13 ==> #[trigger] ip.addrs[k] == 0,
    ensures
        owns(c, sb, ip, 0),
        nblocks(ip) == 0,
{
}

/// Whether the transaction has room for `k` more blocks.
fn has_room(fs: &FileSystem, k: usize) -> (r: bool)
    requires
        fs.wf(),
        k <= LOGSIZE,
    ensures
        r == fs.room(k as int),
{
    let len = fs.log.len();
    len + k <= LOGSIZE && (len as u64) + (k as u64) < fs.log.size as u64
}

/// Creates an inode of type `typ` (device numbers `major` and `minor`) named `name` in
/// directory `dp`, which is inode `dp_inum`, and writes it to the inode table. A new
/// directory gets its `.` and `..` entries, and `dp` a link for the `..`. Fails, changing
/// nothing, when the name is present (the caller then decides whether the inode found will
/// do); fails too when no inode or block is free or the transaction runs out of room.
pub fn create(
    dp: &mut InodeInner,
    dp_inum: u32,
    fs: &mut FileSystem,
    tx: &FsTransaction,
    name: &Vec<u8>,
    typ: i16,
    major: u16,
    minor: u16,
) -> (r: Result<(u32, InodeInner), ()>)
    requires
        old(fs).wf(),
        old(fs).log.outstanding >= 1,
        owns(old(fs).cache@, old(fs).sb(), *old(dp), nblocks(*old(dp))),
        valid_name(name@),
        typ != 0,
        1 <= dp_inum < old(fs).sb().ninodes,
        old(dp).nlink < i16::MAX,
    ensures
        final(fs).wf(),
        final(fs).superblock == old(fs).superblock,
        final(fs).log.outstanding == old(fs).log.outstanding,
        final(dp).typ == old(dp).typ,
        owns(final(fs).cache@, final(fs).sb(), *final(dp), nblocks(*final(dp))),
        (exists|k: int| 0 <= k < nentries(file_data(old(fs).cache@, *old(dp))) && #[trigger] entry_found(
            file_data(old(fs).cache@, *old(dp)),
            k,
            name@,
        )) ==> {
            let d = file_data(old(fs).cache@, *old(dp));
            &&& *final(dp) == *old(dp)
            &&& *final(fs) == *old(fs)
            &&& typ != T_FILE ==> r is Err
            &&& r is Ok ==> {
                let (inum, ip) = r->Ok_0;
                &&& typ == T_FILE && (ip.typ == T_FILE || ip.typ == T_DEVICE)
                &&& exists|k: int| 0 <= k < nentries(d) && #[trigger] entry_found(d, k, name@) && entry_inum(d, k) == inum
                &&& 1 <= inum < old(fs).sb().ninodes
                &&& ip.valid
                &&& holds_dinode(old(fs).cache@[old(fs).sb().inodestart + inum as int / (IPB as int)], dinode_off(inum), ip)
            }
            &&& typ == T_FILE && (forall|k: int|
                0 <= k < nentries(d) && #[trigger] entry_found(d, k, name@) && (forall|j: int| 0 <= j < k ==> !#[trigger] entry_found(d, j, name@))
                    ==> 1 <= entry_inum(d, k) < old(fs).sb().ninodes && (disk_type(old(fs).cache@, old(fs).sb(), entry_inum(d, k) as int) == T_FILE
                    || disk_type(old(fs).cache@, old(fs).sb(), entry_inum(d, k) as int) == T_DEVICE)) ==> r is Ok
        },
        r is Err ==> (exists|k: int| 0 <= k < nentries(file_data(old(fs).cache@, *old(dp))) && #[trigger] entry_found(
            file_data(old(fs).cache@, *old(dp)),
            k,
            name@,
        )) || (forall|j: int| 1 <= j < old(fs).sb().ninodes ==> #[trigger] disk_type(old(fs).cache@, old(fs).sb(), j) != 0)
            || old(dp).size + DIRENT_SIZE > MAXFILE * BSIZE || !old(fs).room(22) || forall|x: int|
            0 <= x < final(fs).sb().size ==> #[trigger] allocated(final(fs).cache@, final(fs).sb(), x),
        !(exists|k: int| 0 <= k < nentries(file_data(old(fs).cache@, *old(dp))) && #[trigger] entry_found(
            file_data(old(fs).cache@, *old(dp)),
            k,
            name@,
        )) && r is Ok ==> {
            let (inum, ip) = r->Ok_0;
            let d = file_data(final(fs).cache@, *final(dp));
            &&& 1 <= inum < old(fs).sb().ninodes
            &&& ip.valid
            &&& ip.typ == typ
            &&& ip.major == major
            &&& ip.minor == minor
            &&& ip.nlink == 1
            &&& owns(final(fs).cache@, final(fs).sb(), ip, nblocks(ip))
            &&& holds_dinode(final(fs).cache@[final(fs).sb().inodestart + inum as int / (IPB as int)], dinode_off(inum), ip)
            &&& typ != T_DIR ==> ip.size == 0
            &&& final(dp).nlink == old(dp).nlink + if typ == T_DIR { 1int } else { 0int }
            &&& exists|k: int| 0 <= k < nentries(d) && #[trigger] entry_found(d, k, name@) && entry_inum(d, k) == inum
        },
{
    let ghost sb = fs.sb();
    proof {
        lemma_owns_mapped(fs.cache@, sb, *dp, nblocks(*dp));
    }
    let d = match readi(dp, &fs.cache, 0, dp.size) {
        Ok(d) => d,
        Err(_) => {
            return Err(());
        },
    };
    assert(d@ =~= file_data(fs.cache@, *dp));
    match dirlookup(&d, name) {
        Some((found, off)) => {
            if typ != T_FILE || found == 0 || found as u32 >= fs.superblock_ninodes() {
                return Err(());
            }
            let existing = iload(fs, found as u32);
            proof {
                let dd = file_data(fs.cache@, *dp);
                assert(entry_found(dd, off as int / 16, name@));
            }
            if create_reuses(typ, existing.typ) {
                return Ok((found as u32, existing));
            }
            return Err(());
        },
        None => {},
    }
    if !has_room(fs, 3) {
        return Err(());
    }
    let ghost c0 = fs.cache@;
    let inum = match ialloc(fs, tx, typ) {
        Some(i) => i,
        None => {
            return Err(());
        },
    };
    let ghost bi = sb.inodestart + inum as int / (IPB as int);
    proof {
        vstd::arithmetic::div_mod::lemma_div_is_ordered(inum as int, sb.ninodes as int, IPB as int);
        lemma_table_write_frame(c0, fs.cache@, sb, *dp, nblocks(*dp), bi);
    }
    let mut ip = InodeInner { valid: true, typ, major, minor, nlink: 1, size: 0, addrs: [0u32; 13] };
    let ghost c1 = fs.cache@;
    iupdate(&ip, fs, tx, inum);
    proof {
        lemma_table_write_frame(c1, fs.cache@, sb, *dp, nblocks(*dp), bi);
    }
    let ghost dp0 = *dp;
    let ghost c2 = fs.cache@;
    match dirlink(dp, fs, tx, name, inum as u16) {
        Ok(_) => {},
        Err(_) => {
            return Err(());
        },
    }
    let ghost dp1 = *dp;
    let ghost c3 = fs.cache@;
    proof {
        lemma_empty_owns(c3, sb, ip);
    }
    if typ == T_DIR {
        let ghost dpb = *dp;
        dp.nlink = dp.nlink + 1;
        proof {
            lemma_same_blocks(c3, sb, dpb, *dp, nblocks(dpb));
        }
        match link_dots(&mut ip, inum, dp, dp_inum, fs, tx) {
            Ok(_) => {},
            Err(_) => {
                return Err(());
            },
        }
    }
    if !has_room(fs, 1) {
        return Err(());
    }
    let ghost c6 = fs.cache@;
    iupdate(&ip, fs, tx, inum);
    proof {
        lemma_table_write_frame(c6, fs.cache@, sb, *dp, nblocks(*dp), bi);
        lemma_table_write_frame(c6, fs.cache@, sb, ip, nblocks(ip), bi);
        assert(file_data(fs.cache@, *dp) == file_data(c3, dp1));
    }
    Ok((inum, ip))
}

/// Writes directory `dp` (inode `dp_inum`) back to the inode table, then gives the new,
/// empty directory `ip` (inode `inum`) its `.` and `..` entries; `dp`'s blocks and bytes
/// stay as they were.
fn link_dots(
    ip: &mut InodeInner,
    inum: u32,
    dp: &InodeInner,
    dp_inum: u32,
    fs: &mut FileSystem,
    tx: &FsTransaction,
) -> (r: Result<(), ()>)
    requires
        old(fs).wf(),
        old(fs).log.outstanding >= 1,
        owns(old(fs).cache@, old(fs).sb(), *dp, nblocks(*dp)),
        old(ip).size == 0,
        forall|k: int| 0 <= k < 13 ==> #[trigger] old(ip).addrs[k] == 0,
        1 <= inum < old(fs).sb().ninodes,
        1 <= dp_inum < old(fs).sb().ninodes,
    ensures
        final(fs).wf(),
        final(fs).superblock == old(fs).superblock,
        final(fs).log.outstanding == old(fs).log.outstanding,
        final(ip).typ == old(ip).typ,
        final(ip).nlink == old(ip).nlink,
        final(ip).major == old(ip).major,
        final(ip).minor == old(ip).minor,
        final(ip).valid == old(ip).valid,
        owns(final(fs).cache@, final(fs).sb(), *dp, nblocks(*dp)),
        file_data(final(fs).cache@, *dp) == file_data(old(fs).cache@, *dp),
        owns(final(fs).cache@, final(fs).sb(), *final(ip), nblocks(*final(ip))),
        final(fs).log.blocks().len() <= old(fs).log.blocks().len() + 13,
        r is Err ==> !old(fs).room(13) || forall|x: int|
            0 <= x < final(fs).sb().size ==> #[trigger] allocated(final(fs).cache@, final(fs).sb(), x),
{
    let ghost sb = fs.sb();
    let ghost c3 = fs.cache@;
    if !has_room(fs, 1) {
        proof {
            lemma_empty_owns(c3, sb, *ip);
        }
        return Err(());
    }
    iupdate(dp, fs, tx, dp_inum);
    let ghost c4 = fs.cache@;
    proof {
        vstd::arithmetic::div_mod::lemma_div_is_ordered(dp_inum as int, sb.ninodes as int, IPB as int);
        lemma_table_write_frame(c3, c4, sb, *dp, nblocks(*dp), sb.inodestart + dp_inum as int / (IPB as int));
        lemma_empty_owns(c4, sb, *ip);
    }
    let ghost ipe = *ip;
    match dirlink(ip, fs, tx, &vec![46u8], inum as u16) {
        Ok(_) => {},
        Err(_) => {
            proof {
                lemma_disjoint_frame(c4, fs.cache@, sb, ipe, 0, *ip, nblocks(*ip), *dp, nblocks(*dp));
            }
            return Err(());
        },
    }
    let ghost c5 = fs.cache@;
    let ghost ip1 = *ip;
    let dots = vec![46u8, 46u8];
    proof {
        let d1 = file_data(c5, ip1);
        let nm = dots@;
        assert(nm.len() == 2 && nm[1] == 46u8);
        assert(file_data(c4, ipe) =~= Seq::<u8>::empty());
        assert forall|k: int| 0 <= k < nentries(d1) implies !#[trigger] entry_found(d1, k, nm) by {
            vstd::arithmetic::div_mod::lemma_fundamental_div_mod(d1.len() as int, 16);
            assert(d1.len() == 16);
            assert(k == 0);
            assert(d1[3] == 0u8);
        }
    }
    proof {
        lemma_disjoint_frame(c4, c5, sb, ipe, 0, ip1, nblocks(ip1), *dp, nblocks(*dp));
    }
    let res = dirlink(ip, fs, tx, &dots, dp_inum as u16);
    proof {
        assert forall|k: int, j: int| 0 <= k < nblocks(ip1) && 0 <= j < nblocks(*dp) implies #[trigger] addr_of(c5, ip1, k)
            != #[trigger] addr_of(c5, *dp, j) by {
            assert(!allocated(c4, sb, addr_of(c5, ip1, k)));
            assert(allocated(c4, sb, addr_of(c4, *dp, j)));
        }
        assert forall|j: int| 0 <= j < nblocks(*dp) implies #[trigger] addr_of(c5, *dp, j) != ip1.addrs[NDIRECT as int] by {
            assert(allocated(c4, sb, addr_of(c4, *dp, j)));
        }
        if dp.addrs[NDIRECT as int] != 0 {
            assert(allocated(c4, sb, dp.addrs[NDIRECT as int] as int));
            assert forall|k: int| 0 <= k < nblocks(ip1) implies #[trigger] addr_of(c5, ip1, k) != dp.addrs[NDIRECT as int] by {
                assert(!allocated(c4, sb, addr_of(c5, ip1, k)));
            }
        }
        lemma_disjoint_frame(c5, fs.cache@, sb, ip1, nblocks(ip1), *ip, nblocks(*ip), *dp, nblocks(*dp));
    }
    match res {
        Ok(_) => Ok(()),
        Err(_) => Err(()),
    }
}

/// Adds a link named `name` in directory `dp` to inode `inum`, whose copy is `ip`, and
/// counts it in `ip`, written back to the inode table. Directories cannot be linked. On
/// failure (a directory, the name present, no room) the copy's link count is as before,
/// and is written back when the transaction has room.
pub fn link(
    ip: &mut InodeInner,
    inum: u32,
    dp: &mut InodeInner,
    fs: &mut FileSystem,
    tx: &FsTransaction,
    name: &Vec<u8>,
) -> (r: Result<(), ()>)
    requires
        old(fs).wf(),
        old(fs).log.outstanding >= 1,
        owns(old(fs).cache@, old(fs).sb(), *old(dp), nblocks(*old(dp))),
        valid_name(name@),
        1 <= inum < old(fs).sb().ninodes,
        old(ip).nlink < i16::MAX,
    ensures
        final(fs).wf(),
        final(fs).superblock == old(fs).superblock,
        final(fs).log.outstanding == old(fs).log.outstanding,
        final(ip).nlink == old(ip).nlink + if r is Ok { 1int } else { 0int },
        final(ip).typ == old(ip).typ,
        final(ip).size == old(ip).size,
        final(ip).addrs == old(ip).addrs,
        owns(final(fs).cache@, final(fs).sb(), *final(dp), nblocks(*final(dp))),
        old(ip).typ == T_DIR ==> r is Err && final(fs).cache@ == old(fs).cache@,
        (exists|k: int| 0 <= k < nentries(file_data(old(fs).cache@, *old(dp))) && #[trigger] entry_found(
            file_data(old(fs).cache@, *old(dp)),
            k,
            name@,
        )) ==> r is Err && *final(dp) == *old(dp) && final(fs).cache@ == old(fs).cache@ && *final(ip) == *old(ip),
        r is Err ==> old(ip).typ == T_DIR || (exists|k: int| 0 <= k < nentries(file_data(old(fs).cache@, *old(dp)))
            && #[trigger] entry_found(file_data(old(fs).cache@, *old(dp)), k, name@)) || old(dp).size + DIRENT_SIZE
            > MAXFILE * BSIZE || !old(fs).room(7) || forall|x: int|
            0 <= x < final(fs).sb().size ==> #[trigger] allocated(final(fs).cache@, final(fs).sb(), x),
        r is Ok ==> {
            let d = file_data(final(fs).cache@, *final(dp));
            &&& exists|k: int| 0 <= k < nentries(d) && #[trigger] entry_found(d, k, name@) && entry_inum(d, k) == inum
            &&& holds_dinode(final(fs).cache@[final(fs).sb().inodestart + inum as int / (IPB as int)], dinode_off(inum), *final(ip))
        },
{
    if ip.typ == T_DIR {
        return Err(());
    }
    proof {
        lemma_owns_mapped(fs.cache@, fs.sb(), *dp, nblocks(*dp));
    }
    let d = match readi(dp, &fs.cache, 0, dp.size) {
        Ok(d) => d,
        Err(_) => {
            return Err(());
        },
    };
    assert(d@ =~= file_data(fs.cache@, *dp));
    match dirlookup(&d, name) {
        Some(_) => {
            return Err(());
        },
        None => {},
    }
    if !has_room(fs, 2) {
        return Err(());
    }
    let ghost sb = fs.sb();
    let ghost bi = sb.inodestart + inum as int / (IPB as int);
    proof {
        vstd::arithmetic::div_mod::lemma_div_is_ordered(inum as int, sb.ninodes as int, IPB as int);
    }
    ip.nlink = ip.nlink + 1;
    let ghost c0 = fs.cache@;
    iupdate(ip, fs, tx, inum);
    proof {
        lemma_table_write_frame(c0, fs.cache@, sb, *dp, nblocks(*dp), bi);
    }
    let ghost c1 = fs.cache@;
    let ghost dp0 = *dp;
    match dirlink(dp, fs, tx, name, inum as u16) {
        Ok(off) => {
            proof {
                assert(allocated(c1, sb, bi));
                assert forall|k: int| 0 <= k < nblocks(dp0) implies #[trigger] addr_of(c1, dp0, k) != bi by {
                    assert(addr_of(c1, dp0, k) >= sb.data_start());
                }
                assert(other_block(c1, sb, dp0, nblocks(dp0), bi));
                let d2 = file_data(fs.cache@, *dp);
                assert(entry_found(d2, off as int / 16, name@) && entry_inum(d2, off as int / 16) == inum);
            }
            Ok(())
        },
        Err(_) => {
            proof {
                assert(file_data(c1, dp0) == file_data(old(fs).cache@, *old(dp)));
            }
            ip.nlink = ip.nlink - 1;
            if has_room(fs, 1) {
                let ghost c2 = fs.cache@;
                iupdate(ip, fs, tx, inum);
                proof {
                    lemma_table_write_frame(c2, fs.cache@, sb, *dp, nblocks(*dp), bi);
                }
            }
            Err(())
        },
    }
}

/// A directory entry never straddles two blocks.
proof fn lemma_slot_in_block(off: int)
    requires
        off >= 0,
        off % 16 == 0,
    ensures
        off % (BSIZE as int) + 16 <= BSIZE,
{
    vstd::arithmetic::div_mod::lemma_fundamental_div_mod(off, 16);
    vstd::arithmetic::div_mod::lemma_fundamental_div_mod(off, 1024);
    let q = off / 16;
    let a = off / 1024;
    let r = off % 1024;
    assert(r == 16 * (q - 64 * a));
    assert(r <= 1008) by (nonlinear_arith)
        requires
            r == 16 * (q - 64 * a),
            0 <= r < 1024,
    ;
}

/// Directory `dp` and inode `ip` share no block: neither's data blocks nor indirect block
/// is one of the other's.
pub open spec fn apart(c: Seq<Seq<u8>>, dp: InodeInner, ip: InodeInner) -> bool {
    &&& forall|k: int, j: int|
        0 <= k < nblocks(dp) && 0 <= j < nblocks(ip) ==> #[trigger] addr_of(c, dp, k) != #[trigger] addr_of(c, ip, j)
    &&& forall|j: int| 0 <= j < nblocks(ip) ==> #[trigger] addr_of(c, ip, j) != dp.addrs[NDIRECT as int]
    &&& ip.addrs[NDIRECT as int] != 0 ==> ip.addrs[NDIRECT as int] != dp.addrs[NDIRECT as int] && forall|k: int|
        0 <= k < nblocks(dp) ==> #[trigger] addr_of(c, dp, k) != ip.addrs[NDIRECT as int]
}

/// A write to directory `dp` leaves an inode that shares no block with it as it was.
proof fn lemma_apart_frame(c0: Seq<Seq<u8>>, c1: Seq<Seq<u8>>, sb: Superblock, dp0: InodeInner, dp1: InodeInner, ip: InodeInner)
    requires
        apart(c0, dp0, ip),
        owns(c0, sb, ip, nblocks(ip)),
        owns(c1, sb, dp1, nblocks(dp1)),
        nblocks(dp0) <= nblocks(dp1),
        grows_only(c0, c1, sb, dp0, nblocks(dp0), dp1, nblocks(dp1)),
        c1.len() == c0.len(),
    ensures
        owns(c1, sb, ip, nblocks(ip)),
        file_data(c1, ip) == file_data(c0, ip),
{
    lemma_disjoint_frame(c0, c1, sb, dp0, nblocks(dp0), dp1, nblocks(dp1), ip, nblocks(ip));
}

} // verus!

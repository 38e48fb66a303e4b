//! Directories on disk: a directory's contents are a sequence of 16-byte entries, each a
//! little-endian inode number (0 for a free slot) and a name of at most `DIRSIZ` bytes,
//! padded with zero bytes.
use vstd::prelude::*;

use crate::param::{DIRENT_SIZE, DIRSIZ};

verus! {

/// A name that an entry can hold: no zero byte, at most `DIRSIZ` bytes.
pub open spec fn valid_name(name: Seq<u8>) -> bool {
    &&& name.len() <= DIRSIZ
    &&& forall|i: int| 0 <= i < name.len() ==> #[trigger] name[i] != 0u8
}

/// Number of entries in directory contents `d`.
pub open spec fn nentries(d: Seq<u8>) -> int {
    d.len() as int / (DIRENT_SIZE as int)
}

/// Inode number of entry `k`.
pub open spec fn entry_inum(d: Seq<u8>, k: int) -> u16 {
    ((d[16 * k] as u16) | ((d[16 * k + 1] as u16) << 8u16)) as u16
}

/// Entry `k` is named `name`: the bytes agree up to the first zero byte or `DIRSIZ`.
pub open spec fn entry_named(d: Seq<u8>, k: int, name: Seq<u8>) -> bool {
    &&& forall|i: int| 0 <= i < name.len() ==> #[trigger] d[16 * k + 2 + i] == name[i]
    &&& name.len() < DIRSIZ ==> d[16 * k + 2 + name.len()] == 0u8
}

/// Entry `k` is in use and named `name`.
pub open spec fn entry_found(d: Seq<u8>, k: int, name: Seq<u8>) -> bool {
    entry_inum(d, k) != 0 && entry_named(d, k, name)
}

/// The bytes of an entry for inode `inum` named `name`.
pub open spec fn dirent_bytes(inum: u16, name: Seq<u8>) -> Seq<u8> {
    Seq::new(
        DIRENT_SIZE as nat,
        |i: int|
            if i == 0 {
                (inum & 0xffu16) as u8
            } else if i == 1 {
                (inum >> 8u16) as u8
            } else if i - 2 < name.len() {
                name[i - 2]
            } else {
                0u8
            },
    )
}

/// The bytes of an entry for inode `inum` named `name`.
pub fn dirent(inum: u16, name: &Vec<u8>) -> (r: Vec<u8>)
    requires
        valid_name(name@),
    ensures
        r@ == dirent_bytes(inum, name@),
        entry_inum(r@, 0) == inum,
        entry_named(r@, 0, name@),
{
    let mut r: Vec<u8> = Vec::new();
    r.push((inum & 0xffu16) as u8);
    r.push((inum >> 8u16) as u8);
    let mut i: usize = 0;
    while i < DIRSIZ
        invariant
            i <= DIRSIZ,
            valid_name(name@),
            r@.len() == i + 2,
            forall|j: int| 0 <= j < i + 2 ==> #[trigger] r@[j] == dirent_bytes(inum, name@)[j],
        decreases DIRSIZ - i,
    {
        if i < name.len() {
            r.push(name[i]);
        } else {
            r.push(0u8);
        }
        i += 1;
    }
    assert(r@ =~= dirent_bytes(inum, name@));
    let lo = (inum & 0xffu16) as u8;
    let hi = (inum >> 8u16) as u8;
    assert(((lo as u16) | ((hi as u16) << 8u16)) as u16 == inum) by (bit_vector)
        requires
            lo == (inum & 0xffu16) as u8,
            hi == (inum >> 8u16) as u8,
    ;
    r
}

/// Inode number of entry `k`.
fn read_inum(d: &Vec<u8>, k: usize) -> (r: u16)
    requires
        k < nentries(d@),
    ensures
        r == entry_inum(d@, k as int),
{
    let len = d.len();
    assert(16 * k + 1 < len) by {
        vstd::arithmetic::div_mod::lemma_fundamental_div_mod(d@.len() as int, 16);
    }
    ((d[16 * k] as u16) | ((d[16 * k + 1] as u16) << 8u16)) as u16
}

/// Whether entry `k` is named `name`.
fn name_at(d: &Vec<u8>, k: usize, name: &Vec<u8>) -> (r: bool)
    requires
        k < nentries(d@),
        valid_name(name@),
    ensures
        r == entry_named(d@, k as int, name@),
{
    let len = d.len();
    assert(16 * k + 16 <= len) by {
        vstd::arithmetic::div_mod::lemma_fundamental_div_mod(d@.len() as int, 16);
    }
    let mut i: usize = 0;
    while i < name.len()
        invariant
            16 * k + 16 <= len,
            len == d@.len(),
            valid_name(name@),
            i <= name@.len(),
            forall|j: int| 0 <= j < i ==> #[trigger] d@[16 * k + 2 + j] == name@[j],
        decreases name@.len() - i,
    {
        if d[16 * k + 2 + i] != name[i] {
            return false;
        }
        i += 1;
    }
    if name.len() < DIRSIZ {
        d[16 * k + 2 + name.len()] == 0u8
    } else {
        true
    }
}

/// Looks `name` up in directory contents `d`: the inode number and byte offset of the
/// first entry in use with that name.
pub fn dirlookup(d: &Vec<u8>, name: &Vec<u8>) -> (r: Option<(u16, u32)>)
    requires
        valid_name(name@),
        d@.len() <= u32::MAX,
    ensures
        match r {
            Some((inum, off)) => {
                &&& off % 16 == 0
                &&& (off as int) / 16 < nentries(d@)
                &&& entry_found(d@, off as int / 16, name@)
                &&& inum == entry_inum(d@, off as int / 16)
                &&& forall|k: int| 0 <= k < off as int / 16 ==> !#[trigger] entry_found(d@, k, name@)
            },
            None => forall|k: int| 0 <= k < nentries(d@) ==> !#[trigger] entry_found(d@, k, name@),
        },
{
    let n = d.len() / DIRENT_SIZE;
    let mut k: usize = 0;
    while k < n
        invariant
            n == nentries(d@),
            d@.len() <= u32::MAX,
            valid_name(name@),
            k <= n,
            forall|j: int| 0 <= j < k ==> !#[trigger] entry_found(d@, j, name@),
        decreases n - k,
    {
        let inum = read_inum(d, k);
        if inum != 0 && name_at(d, k, name) {
            assert(16 * k <= d@.len()) by {
                vstd::arithmetic::div_mod::lemma_fundamental_div_mod(d@.len() as int, 16);
            }
            let off = (16 * k) as u32;
            assert(off as int / 16 == k) by {
                vstd::arithmetic::div_mod::lemma_fundamental_div_mod_converse(off as int, 16, k as int, 0);
            }
            return Some((inum, off));
        }
        k += 1;
    }
    None
}

/// Where `dirlink` puts a new entry named `name`: the byte offset of the first free slot,
/// or the end of the contents when every slot is in use. Fails when the name is present.
pub fn dirlink_slot(d: &Vec<u8>, name: &Vec<u8>) -> (r: Result<u32, ()>)
    requires
        valid_name(name@),
        d@.len() <= u32::MAX,
    ensures
        r is Err == exists|k: int| 0 <= k < nentries(d@) && #[trigger] entry_found(d@, k, name@),
        r is Ok ==> {
            let off = r->Ok_0 as int;
            &&& off % 16 == 0
            &&& off / 16 <= nentries(d@)
            &&& off / 16 < nentries(d@) ==> entry_inum(d@, off / 16) == 0
            &&& forall|k: int| 0 <= k < off / 16 ==> #[trigger] entry_inum(d@, k) != 0
        },
{
    match dirlookup(d, name) {
        Some(_) => {
            return Err(());
        },
        None => {},
    }
    let n = d.len() / DIRENT_SIZE;
    let mut k: usize = 0;
    let mut free = false;
    while k < n && !free
        invariant
            n == nentries(d@),
            d@.len() <= u32::MAX,
            k <= n,
            free ==> k < n && entry_inum(d@, k as int) == 0,
            forall|j: int| 0 <= j < k ==> #[trigger] entry_inum(d@, j) != 0,
        decreases n - k, if free { 0int } else { 1int },
    {
        if read_inum(d, k) == 0 {
            free = true;
        } else {
            k += 1;
        }
    }
    assert(16 * k <= d@.len()) by {
        vstd::arithmetic::div_mod::lemma_fundamental_div_mod(d@.len() as int, 16);
    }
    let off = (16 * k) as u32;
    assert(off as int / 16 == k) by {
        vstd::arithmetic::div_mod::lemma_fundamental_div_mod_converse(off as int, 16, k as int, 0);
    }
    Ok(off)
}

/// A directory is empty when every entry after `.` and `..` is free.
pub fn isdirempty(d: &Vec<u8>) -> (r: bool)
    ensures
        r == forall|k: int| 2 <= k < nentries(d@) ==> #[trigger] entry_inum(d@, k) == 0,
{
    let n = d.len() / DIRENT_SIZE;
    let mut k: usize = 2;
    while k < n
        invariant
            n == nentries(d@),
            2 <= k,
            k <= n || n < 2,
            forall|j: int| 2 <= j < k ==> #[trigger] entry_inum(d@, j) == 0,
        decreases n - k,
    {
        if read_inum(d, k) != 0 {
            return false;
        }
        k += 1;
    }
    true
}

} // verus!

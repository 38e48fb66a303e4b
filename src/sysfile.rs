//! Decisions of the file-system system calls: descriptor slots, open modes, and the checks
//! made before a link is added or removed.
use vstd::prelude::*;

use crate::file::{FTableRef, File, FileType, RcFile};
use crate::inode::InodeInner;
use crate::param::{NDEV, NFILE, NOFILE, O_CREATE, O_RDONLY, O_RDWR, O_WRONLY, T_DEVICE, T_DIR, T_FILE};

verus! {

/// Puts `f` in the first free descriptor slot and returns its index; hands `f` back when
/// every slot is taken.
pub fn fdalloc(open_files: &mut Vec<Option<RcFile>>, f: RcFile) -> (r: Result<usize, RcFile>)
    requires
        old(open_files)@.len() == NOFILE,
    ensures
        final(open_files)@.len() == NOFILE,
        match r {
            Ok(fd) => {
                &&& fd < NOFILE
                &&& old(open_files)@[fd as int] is None
                &&& forall|i: int| 0 <= i < fd ==> #[trigger] old(open_files)@[i] is Some
                &&& final(open_files)@ == old(open_files)@.update(fd as int, Some(f))
            },
            Err(g) => {
                &&& g == f
                &&& forall|i: int| 0 <= i < NOFILE ==> #[trigger] old(open_files)@[i] is Some
                &&& final(open_files)@ == old(open_files)@
            },
        },
{
    let mut fd: usize = 0;
    while fd < NOFILE
        invariant
            *open_files == *old(open_files),
            open_files@.len() == NOFILE,
            fd <= NOFILE,
            forall|i: int| 0 <= i < fd ==> #[trigger] open_files@[i] is Some,
        decreases NOFILE - fd,
    {
        if open_files[fd].is_none() {
            open_files.set(fd, Some(f));
            return Ok(fd);
        }
        fd += 1;
    }
    Err(f)
}

/// The descriptor `fd` names an open file: it is in range and its slot is taken.
pub fn argfd(open_files: &Vec<Option<RcFile>>, fd: i32) -> (r: Result<usize, ()>)
    requires
        open_files@.len() == NOFILE,
    ensures
        r is Ok == (0 <= fd < NOFILE && open_files@[fd as int] is Some),
        r is Ok ==> r->Ok_0 == fd,
{
    if fd < 0 || fd >= NOFILE as i32 {
        return Err(());
    }
    if open_files[fd as usize].is_none() {
        return Err(());
    }
    Ok(fd as usize)
}

/// Access that an open mode grants: reading unless write-only; writing when write-only
/// or read-write.
pub fn open_access(omode: i32) -> (r: (bool, bool))
    ensures
        r.0 == (omode & O_WRONLY == 0),
        r.1 == (omode & (O_WRONLY | O_RDWR) != 0),
{
    (omode & O_WRONLY == 0, omode & (O_WRONLY | O_RDWR) != 0)
}

/// Whether the open mode asks to create the file.
pub fn open_creates(omode: i32) -> (r: bool)
    ensures
        r == (omode & O_CREATE != 0),
{
    omode & O_CREATE != 0
}

/// Whether `open` refuses an existing inode of type `typ` (with major number `major`): a
/// directory opened for anything but reading, or a device without an entry in the device
/// switch.
pub fn open_refused(typ: i16, major: u16, omode: i32) -> (r: bool)
    ensures
        r == ((typ == T_DIR && omode != O_RDONLY) || (typ == T_DEVICE && major as int >= NDEV)),
{
    (typ == T_DIR && omode != O_RDONLY) || (typ == T_DEVICE && major as usize >= NDEV)
}

/// Whether creating a file of type `typ` where an inode of type `existing` is found
/// succeeds with that inode: only a plain file over a plain file or a device.
pub fn create_reuses(typ: i16, existing: i16) -> (r: bool)
    ensures
        r == (typ == T_FILE && (existing == T_FILE || existing == T_DEVICE)),
{
    typ == T_FILE && (existing == T_FILE || existing == T_DEVICE)
}

/// `.` and `..` cannot be unlinked.
pub fn unlink_name_ok(name: &Vec<u8>) -> (r: bool)
    ensures
        r == !(name@ == seq![46u8] || name@ == seq![46u8, 46u8]),
{
    if name.len() == 1 && name[0] == 46u8 {
        assert(name@ =~= seq![46u8]);
        return false;
    }
    if name.len() == 2 && name[0] == 46u8 && name[1] == 46u8 {
        assert(name@ =~= seq![46u8, 46u8]);
        return false;
    }
    true
}

/// Whether `unlink` removes an entry whose inode has type `typ`: anything but a directory
/// that still holds entries.
pub fn unlink_allowed(typ: i16, dir_empty: bool) -> (r: bool)
    ensures
        r == (typ != T_DIR || dir_empty),
{
    typ != T_DIR || dir_empty
}

/// Every descriptor of the process refers to a slot of the table that is in use.
pub open spec fn files_ok(open_files: Seq<Option<RcFile>>, table: FTableRef) -> bool {
    &&& open_files.len() == NOFILE
    &&& table.wf()
    &&& forall|i: int|
        0 <= i < NOFILE && #[trigger] open_files[i] is Some ==> open_files[i]->Some_0.idx < NFILE
            && table.refs@[open_files[i]->Some_0.idx as int] >= 1
}

/// Index of the first free descriptor slot, if any.
pub open spec fn first_free_fd(open_files: Seq<Option<RcFile>>, fd: int) -> bool {
    &&& 0 <= fd < NOFILE
    &&& open_files[fd] is None
    &&& forall|i: int| 0 <= i < fd ==> #[trigger] open_files[i] is Some
}

/// Duplicates descriptor `fd` into the first free slot and returns it; `usize::MAX` when
/// `fd` names no open file, when no slot is free, or when the file's count is at its limit.
pub fn sys_dup(open_files: &mut Vec<Option<RcFile>>, table: &mut FTableRef, fd: i32) -> (r: usize)
    requires
        files_ok(old(open_files)@, *old(table)),
    ensures
        files_ok(final(open_files)@, *final(table)),
        final(table).files@ == old(table).files@,
        ({
            let valid = 0 <= fd < NOFILE && old(open_files)@[fd as int] is Some;
            let f = old(open_files)@[fd as int]->Some_0;
            let has_free = exists|i: int| 0 <= i < NOFILE && #[trigger] old(open_files)@[i] is None;
            &&& (valid && has_free && old(table).refs@[f.idx as int] < u32::MAX) == (r != usize::MAX)
            &&& (!valid || !has_free || old(table).refs@[f.idx as int] == u32::MAX) ==> r == usize::MAX
                && final(open_files)@ == old(open_files)@ && final(table).refs@ == old(table).refs@
            &&& r != usize::MAX ==> {
                &&& valid
                &&& first_free_fd(old(open_files)@, r as int)
                &&& final(open_files)@ == old(open_files)@.update(r as int, Some(RcFile { idx: f.idx }))
                &&& final(table).refs@ == old(table).refs@.update(f.idx as int, (old(table).refs@[f.idx as int] + 1) as u32)
            }
        }),
{
    let i = match argfd(open_files, fd) {
        Ok(i) => i,
        Err(_) => {
            return usize::MAX;
        },
    };
    let f = match open_files[i] {
        Some(f) => f,
        None => {
            return usize::MAX;
        },
    };
    if table.refs[f.idx] == u32::MAX {
        return usize::MAX;
    }
    let g = f.dup(table);
    match fdalloc(open_files, g) {
        Ok(newfd) => {
            assert forall|k: int| 0 <= k < NOFILE && #[trigger] open_files@[k] is Some implies open_files@[k]->Some_0.idx
                < NFILE && table.refs@[open_files@[k]->Some_0.idx as int] >= 1 by {
                if k != newfd {
                    assert(old(open_files)@[k] is Some);
                }
            }
            newfd
        },
        Err(g) => {
            g.release(table);
            assert(table.refs@ =~= old(table).refs@);
            usize::MAX
        },
    }
}

/// Opens a pipe as two descriptors: a read end and a write end, each a new file in the
/// table, in the first two free slots. On failure nothing stays allocated.
pub fn sys_pipe(open_files: &mut Vec<Option<RcFile>>, table: &mut FTableRef, pipe: usize) -> (r: Result<(usize, usize), ()>)
    requires
        files_ok(old(open_files)@, *old(table)),
    ensures
        files_ok(final(open_files)@, *final(table)),
        (exists|i: int, j: int|
            0 <= i < j < NOFILE && #[trigger] old(open_files)@[i] is None && #[trigger] old(open_files)@[j] is None)
            && (exists|a: int, b: int| 0 <= a < b < NFILE && #[trigger] old(table).refs@[a] == 0 && #[trigger] old(table).refs@[b] == 0)
            ==> r is Ok,
        r is Err ==> final(open_files)@ == old(open_files)@ && final(table).refs@ == old(table).refs@,
        r is Ok ==> {
            let (fd0, fd1) = r->Ok_0;
            &&& first_free_fd(old(open_files)@, fd0 as int)
            &&& fd0 < fd1 < NOFILE
            &&& old(open_files)@[fd1 as int] is None
            &&& forall|i: int| fd0 < i < fd1 ==> #[trigger] old(open_files)@[i] is Some
            &&& final(open_files)@[fd0 as int] is Some
            &&& final(open_files)@[fd1 as int] is Some
            &&& final(table).files@[final(open_files)@[fd0 as int]->Some_0.idx as int] == (File {
                typ: FileType::Pipe { pipe },
                readable: true,
                writable: false,
            })
            &&& final(table).files@[final(open_files)@[fd1 as int]->Some_0.idx as int] == (File {
                typ: FileType::Pipe { pipe },
                readable: false,
                writable: true,
            })
            &&& forall|i: int| 0 <= i < NOFILE && i != fd0 && i != fd1 ==> #[trigger] final(open_files)@[i] == old(open_files)@[i]
        },
{
    let rf = match RcFile::allocate(table, FileType::Pipe { pipe }, true, false) {
        Some(f) => f,
        None => {
            return Err(());
        },
    };
    proof {
        if exists|a: int, b: int| 0 <= a < b < NFILE && #[trigger] old(table).refs@[a] == 0 && #[trigger] old(table).refs@[b] == 0 {
            let (a, b) = choose|a: int, b: int| 0 <= a < b < NFILE && #[trigger] old(table).refs@[a] == 0 && #[trigger] old(table).refs@[b] == 0;
            if a != rf.idx {
                assert(table.refs@[a] == 0);
            } else {
                assert(table.refs@[b] == 0);
            }
        }
    }
    let wf = match RcFile::allocate(table, FileType::Pipe { pipe }, false, true) {
        Some(f) => f,
        None => {
            rf.release(table);
            assert(table.refs@ =~= old(table).refs@);
            return Err(());
        },
    };
    let ghost t2 = *table;
    assert(rf.idx != wf.idx);
    let fd0 = match fdalloc(open_files, rf) {
        Ok(fd) => fd,
        Err(_) => {
            wf.release(table);
            rf.release(table);
            assert(table.refs@ =~= old(table).refs@);
            return Err(());
        },
    };
    let ghost o1 = open_files@;
    proof {
        if exists|i: int, j: int| 0 <= i < j < NOFILE && #[trigger] old(open_files)@[i] is None && #[trigger] old(open_files)@[j] is None {
            let (i, j) = choose|i: int, j: int| 0 <= i < j < NOFILE && #[trigger] old(open_files)@[i] is None && #[trigger] old(open_files)@[j] is None;
            if i != fd0 {
                assert(o1[i] is None);
            } else {
                assert(o1[j] is None);
            }
        }
    }
    let fd1 = match fdalloc(open_files, wf) {
        Ok(fd) => fd,
        Err(_) => {
            open_files.set(fd0, None);
            assert(open_files@ =~= old(open_files)@);
            wf.release(table);
            rf.release(table);
            assert(table.refs@ =~= old(table).refs@);
            return Err(());
        },
    };
    assert(fd0 < fd1) by {
        assert(o1[fd0 as int] is Some);
    }
    assert forall|k: int| 0 <= k < NOFILE && #[trigger] open_files@[k] is Some implies open_files@[k]->Some_0.idx < NFILE
        && table.refs@[open_files@[k]->Some_0.idx as int] >= 1 by {
        if k != fd0 && k != fd1 {
            assert(old(open_files)@[k] is Some);
        }
    }
    assert forall|i: int| fd0 < i < fd1 implies #[trigger] old(open_files)@[i] is Some by {
        assert(o1[i] is Some);
    }
    Ok((fd0, fd1))
}

/// The open file that `open` makes of inode `ip_idx`, whose copy is `ip`, for open mode
/// `omode`: a device file for a device, else an inode file at offset 0.
pub open spec fn opened_file(ip_idx: usize, ip: InodeInner, omode: i32) -> File {
    File {
        typ: if ip.typ == T_DEVICE {
            FileType::Device { ip: ip_idx, major: ip.major }
        } else {
            FileType::Inode { ip: ip_idx, off: 0 }
        },
        readable: omode & O_WRONLY == 0,
        writable: omode & (O_WRONLY | O_RDWR) != 0,
    }
}

/// Opens inode `ip_idx` (already found or created, and held by the caller) for open mode
/// `omode`: a new file in the table and a descriptor for it, the first free one. Refuses a
/// directory opened for writing and a device without an entry in the device switch. On
/// `usize::MAX` nothing changed, and the caller puts the inode back.
pub fn open_inode(
    open_files: &mut Vec<Option<RcFile>>,
    table: &mut FTableRef,
    ip_idx: usize,
    ip: &InodeInner,
    omode: i32,
) -> (r: usize)
    requires
        files_ok(old(open_files)@, *old(table)),
    ensures
        files_ok(final(open_files)@, *final(table)),
        ({
            let refused = (ip.typ == T_DIR && omode != O_RDONLY) || (ip.typ == T_DEVICE && ip.major as int >= NDEV);
            let free_fd = exists|i: int| 0 <= i < NOFILE && #[trigger] old(open_files)@[i] is None;
            let free_slot = exists|a: int| 0 <= a < NFILE && #[trigger] old(table).refs@[a] == 0;
            &&& (r != usize::MAX) == (!refused && free_fd && free_slot)
            &&& r == usize::MAX ==> final(open_files)@ == old(open_files)@ && final(table).refs@ == old(table).refs@
            &&& r != usize::MAX ==> {
                &&& first_free_fd(old(open_files)@, r as int)
                &&& final(open_files)@[r as int] is Some
                &&& final(table).files@[final(open_files)@[r as int]->Some_0.idx as int] == opened_file(ip_idx, *ip, omode)
                &&& forall|i: int| 0 <= i < NOFILE && i != r ==> #[trigger] final(open_files)@[i] == old(open_files)@[i]
            }
        }),
{
    if open_refused(ip.typ, ip.major, omode) {
        return usize::MAX;
    }
    let typ = if ip.typ == T_DEVICE {
        FileType::Device { ip: ip_idx, major: ip.major }
    } else {
        FileType::Inode { ip: ip_idx, off: 0 }
    };
    let (readable, writable) = open_access(omode);
    let f = match RcFile::allocate(table, typ, readable, writable) {
        Some(f) => f,
        None => {
            return usize::MAX;
        },
    };
    match fdalloc(open_files, f) {
        Ok(fd) => {
            assert forall|k: int| 0 <= k < NOFILE && #[trigger] open_files@[k] is Some implies open_files@[k]->Some_0.idx
                < NFILE && table.refs@[open_files@[k]->Some_0.idx as int] >= 1 by {
                if k != fd {
                    assert(old(open_files)@[k] is Some);
                }
            }
            fd
        },
        Err(g) => {
            g.release(table);
            assert(table.refs@ =~= old(table).refs@);
            usize::MAX
        },
    }
}

/// Makes directory inode `ip_idx` the working directory: 0, or `usize::MAX` (and no
/// change) when the inode is not a directory.
pub fn chdir(cwd: &mut Option<usize>, ip_idx: usize, ip: &InodeInner) -> (r: usize)
    ensures
        (r == 0) == (ip.typ == T_DIR),
        r != 0 ==> r == usize::MAX && *final(cwd) == *old(cwd),
        r == 0 ==> *final(cwd) == Some(ip_idx),
{
    if ip.typ != T_DIR {
        return usize::MAX;
    }
    *cwd = Some(ip_idx);
    0
}

} // verus!

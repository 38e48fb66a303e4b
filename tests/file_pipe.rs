use kernel_fs::inode::InodeInner;
use kernel_fs::file::{write_chunks, Devsw, FTableRef, File, FileOp, FileType, RcFile, MAXWRITE};
use kernel_fs::param::{BPB, BSIZE, MAXFILE, MAXOPBLOCKS, NDEV, NDIRECT, NFILE, NINDIRECT, NOFILE, O_CREATE, O_RDONLY, O_RDWR, O_WRONLY, PIPESIZE, T_DEVICE, T_DIR, T_FILE};
use kernel_fs::pipe::{Pipe, PipeRead, PipeWrite};
use kernel_fs::sleeplock::{acquiresleep, holdingsleep, releasesleep, Sleeplock};
use kernel_fs::sysfile::{argfd, chdir, open_inode, create_reuses, fdalloc, open_access, open_creates, open_refused, sys_dup, sys_pipe, unlink_allowed, unlink_name_ok};

#[test]
fn pipe_eof_when_writer_closed() {
    let mut p = Pipe::new();
    assert!(!p.close(true));
    match p.read(16, false) {
        PipeRead::Data(v) => assert!(v.is_empty()),
        _ => panic!("expected end of file"),
    }
}

#[test]
fn pipe_write_fails_when_reader_closed() {
    let mut p = Pipe::new();
    p.close(false);
    assert!(matches!(p.write(&b"ping".to_vec(), 0, false), PipeWrite::Fail));
}

#[test]
fn pipe_ping() {
    let mut p = Pipe::new();
    assert!(matches!(p.write(&b"ping".to_vec(), 0, false), PipeWrite::Done(4)));
    match p.read(4, false) {
        PipeRead::Data(v) => assert_eq!(v, b"ping".to_vec()),
        _ => panic!("expected data"),
    }
    assert!(!p.close(true));
    assert!(p.close(false));
}

#[test]
fn pipe_empty_reader_waits_or_fails() {
    let mut p = Pipe::new();
    assert!(matches!(p.read(4, false), PipeRead::Wait));
    assert!(matches!(p.read(4, true), PipeRead::Fail));
}

#[test]
fn pipe_full_writer_waits_and_wraps() {
    let mut p = Pipe::new();
    let src: Vec<u8> = (0..700u32).map(|i| (i % 251) as u8).collect();
    let pos = match p.write(&src, 0, false) {
        PipeWrite::Wait(n) => n,
        _ => panic!("expected the ring to fill"),
    };
    assert_eq!(pos, PIPESIZE);
    let first = match p.read(300, false) {
        PipeRead::Data(v) => v,
        _ => panic!(),
    };
    assert_eq!(first, src[0..300].to_vec());
    assert!(matches!(p.write(&src, pos, false), PipeWrite::Done(700)));
    let rest = match p.read(1000, false) {
        PipeRead::Data(v) => v,
        _ => panic!(),
    };
    assert_eq!(rest, src[300..700].to_vec());
}

#[test]
fn write_is_split_into_transactions() {
    assert_eq!(MAXWRITE, 3072);
    assert_eq!(write_chunks(0), Vec::<u32>::new());
    assert_eq!(write_chunks(2), vec![2]);
    assert_eq!(write_chunks(3072), vec![3072]);
    assert_eq!(write_chunks(3073), vec![3072, 1]);
    assert_eq!(write_chunks(10000), vec![3072, 3072, 3072, 784]);
}

#[test]
fn file_table_alloc_dup_release() {
    let mut t = FTableRef::new();
    let f = RcFile::allocate(&mut t, FileType::Inode { ip: 3, off: 0 }, true, false).unwrap();
    assert_eq!(f.idx, 0);
    let g = f.dup(&mut t);
    assert_eq!(t.refs[0], 2);
    let h = RcFile::allocate(&mut t, FileType::Pipe { pipe: 0 }, true, false).unwrap();
    assert_eq!(h.idx, 1);
    assert!(f.release(&mut t).is_none());
    let last = g.release(&mut t).unwrap();
    assert!(matches!(last.typ, FileType::Inode { ip: 3, off: 0 }));
    let again = RcFile::allocate(&mut t, FileType::Empty, false, false).unwrap();
    assert_eq!(again.idx, 0);
}

#[test]
fn file_table_full() {
    let mut t = FTableRef::new();
    for _ in 0..NFILE {
        assert!(RcFile::allocate(&mut t, FileType::Empty, true, true).is_some());
    }
    assert!(RcFile::allocate(&mut t, FileType::Empty, true, true).is_none());
}

#[test]
fn file_read_write_dispatch() {
    let mut devsw = vec![Devsw { read: false, write: false }; NDEV];
    devsw[1] = Devsw { read: true, write: true };
    let f = File { typ: FileType::Inode { ip: 2, off: 5 }, readable: true, writable: false };
    assert_eq!(f.read(&devsw), Ok(FileOp::Inode { ip: 2, off: 5 }));
    assert_eq!(f.write(&devsw), Err(()));
    let d = File { typ: FileType::Device { ip: 4, major: 1 }, readable: true, writable: true };
    assert_eq!(d.write(&devsw), Ok(FileOp::Device { major: 1 }));
    assert_eq!(d.stat(), Ok(4));
    let u = File { typ: FileType::Device { ip: 4, major: 2 }, readable: true, writable: true };
    assert_eq!(u.read(&devsw), Err(()));
    let p = File { typ: FileType::Pipe { pipe: 0 }, readable: true, writable: false };
    assert_eq!(p.stat(), Err(()));
    let n = File::new(true, false);
    assert!(matches!(n.typ, FileType::Empty));
}

#[test]
fn file_offset_advances() {
    let mut f = File { typ: FileType::Inode { ip: 2, off: 5 }, readable: true, writable: true };
    f.advance(10);
    assert!(matches!(f.typ, FileType::Inode { ip: 2, off: 15 }));
}

#[test]
fn descriptors() {
    let mut fds: Vec<Option<RcFile>> = (0..NOFILE).map(|_| None).collect();
    assert_eq!(fdalloc(&mut fds, RcFile { idx: 0 }).ok(), Some(0));
    assert_eq!(fdalloc(&mut fds, RcFile { idx: 1 }).ok(), Some(1));
    assert_eq!(argfd(&fds, 1), Ok(1));
    assert_eq!(argfd(&fds, 2), Err(()));
    assert_eq!(argfd(&fds, -1), Err(()));
    for i in 2..NOFILE {
        assert!(fdalloc(&mut fds, RcFile { idx: i }).is_ok());
    }
    assert_eq!(fdalloc(&mut fds, RcFile { idx: 99 }).err().map(|f| f.idx), Some(99));
}

#[test]
fn open_modes() {
    assert_eq!(open_access(O_RDONLY), (true, false));
    assert_eq!(open_access(O_WRONLY), (false, true));
    assert_eq!(open_access(O_RDWR), (true, true));
    assert_eq!(open_access(O_CREATE | O_WRONLY), (false, true));
    assert!(open_creates(O_CREATE | O_WRONLY));
    assert!(!open_creates(O_RDONLY));
    assert!(open_refused(T_DIR, 0, O_WRONLY));
    assert!(!open_refused(T_DIR, 0, O_RDONLY));
    assert!(open_refused(T_DEVICE, NDEV as u16, O_RDONLY));
    assert!(!open_refused(T_DEVICE, 1, O_RDWR));
    assert!(create_reuses(T_FILE, T_DEVICE));
    assert!(!create_reuses(T_DIR, T_DIR));
}

#[test]
fn unlink_checks() {
    assert!(!unlink_name_ok(&b".".to_vec()));
    assert!(!unlink_name_ok(&b"..".to_vec()));
    assert!(unlink_name_ok(&b"f".to_vec()));
    assert!(!unlink_allowed(T_DIR, false));
    assert!(unlink_allowed(T_DIR, true));
    assert!(unlink_allowed(T_FILE, false));
}

#[test]
fn sleeplock_take_and_release() {
    let mut lk = Sleeplock::zeroed();
    assert!(acquiresleep(&mut lk, 5));
    assert_eq!(holdingsleep(&lk, 5), 1);
    assert_eq!(holdingsleep(&lk, 6), 0);
    assert!(!acquiresleep(&mut lk, 6));
    releasesleep(&mut lk);
    assert_eq!(holdingsleep(&lk, 5), 0);
}


#[test]
fn dup_descriptor() {
    let mut t = FTableRef::new();
    let mut fds: Vec<Option<RcFile>> = (0..NOFILE).map(|_| None).collect();
    let f = RcFile::allocate(&mut t, FileType::Inode { ip: 1, off: 0 }, true, true).unwrap();
    fds[3] = Some(f);
    assert_eq!(sys_dup(&mut fds, &mut t, 3), 0);
    assert_eq!(t.refs[f.idx], 2);
    assert_eq!(fds[0].map(|g| g.idx), Some(f.idx));
    assert_eq!(sys_dup(&mut fds, &mut t, 5), usize::MAX);
    assert_eq!(sys_dup(&mut fds, &mut t, -1), usize::MAX);
    for i in 0..NOFILE {
        if fds[i].is_none() {
            fds[i] = Some(f);
            t.refs[f.idx] += 1;
        }
    }
    let before = t.refs[f.idx];
    assert_eq!(sys_dup(&mut fds, &mut t, 3), usize::MAX);
    assert_eq!(t.refs[f.idx], before);
}

#[test]
fn pipe_descriptors_ping() {
    let mut t = FTableRef::new();
    let mut fds: Vec<Option<RcFile>> = (0..NOFILE).map(|_| None).collect();
    fds[0] = Some(RcFile::allocate(&mut t, FileType::Empty, true, false).unwrap());
    let mut pipes = vec![Pipe::new()];
    let (r, w) = sys_pipe(&mut fds, &mut t, 0).unwrap();
    assert_eq!((r, w), (1, 2));
    let rf = t.files[fds[r].unwrap().idx];
    let wf = t.files[fds[w].unwrap().idx];
    assert!(rf.readable && !rf.writable);
    assert!(!wf.readable && wf.writable);
    let devsw = vec![Devsw { read: false, write: false }; NDEV];
    let p = match wf.write(&devsw) {
        Ok(FileOp::Pipe { pipe }) => pipe,
        _ => panic!("expected a pipe"),
    };
    assert!(matches!(pipes[p].write(&b"ping".to_vec(), 0, false), PipeWrite::Done(4)));
    assert_eq!(rf.read(&devsw), Ok(FileOp::Pipe { pipe: 0 }));
    match pipes[0].read(4, false) {
        PipeRead::Data(v) => assert_eq!(v, b"ping".to_vec()),
        _ => panic!("expected data"),
    }
    let wslot = fds[w].take().unwrap();
    let rslot = fds[r].take().unwrap();
    let wlast = wslot.release(&mut t).unwrap();
    assert!(!pipes[0].close(wlast.writable));
    let rlast = rslot.release(&mut t).unwrap();
    assert!(pipes[0].close(rlast.writable));
    assert_eq!(t.refs[1], 0);
    assert_eq!(t.refs[2], 0);
}

#[test]
fn pipe_descriptors_none_free() {
    let mut t = FTableRef::new();
    let mut fds: Vec<Option<RcFile>> = (0..NOFILE).map(|_| None).collect();
    for i in 0..NOFILE - 1 {
        fds[i] = Some(RcFile::allocate(&mut t, FileType::Empty, true, false).unwrap());
    }
    let refs_before = t.refs.clone();
    assert!(sys_pipe(&mut fds, &mut t, 0).is_err());
    assert_eq!(t.refs, refs_before);
    assert!(fds[NOFILE - 1].is_none());
}

#[test]
fn derived_constants() {
    assert_eq!(MAXWRITE, (MAXOPBLOCKS - 4) / 2 * BSIZE);
    assert_eq!(NINDIRECT, BSIZE / 4);
    assert_eq!(MAXFILE, NDIRECT + NINDIRECT);
    assert_eq!(BPB, BSIZE * 8);
}

#[test]
fn open_inode_descriptors() {
    let mut t = FTableRef::new();
    let mut fds: Vec<Option<RcFile>> = (0..NOFILE).map(|_| None).collect();
    for i in 0..3 {
        fds[i] = Some(RcFile::allocate(&mut t, FileType::Empty, true, true).unwrap());
    }
    let mut file = InodeInner::empty();
    file.typ = T_FILE;
    assert_eq!(open_inode(&mut fds, &mut t, 7, &file, O_CREATE | O_WRONLY), 3);
    let f = t.files[fds[3].unwrap().idx];
    assert!(!f.readable && f.writable);
    assert!(matches!(f.typ, FileType::Inode { ip: 7, off: 0 }));
    let mut dir = InodeInner::empty();
    dir.typ = T_DIR;
    let before = t.refs.clone();
    assert_eq!(open_inode(&mut fds, &mut t, 8, &dir, O_RDWR), usize::MAX);
    assert_eq!(t.refs, before);
    assert_eq!(open_inode(&mut fds, &mut t, 8, &dir, O_RDONLY), 4);
    let mut dev = InodeInner::empty();
    dev.typ = T_DEVICE;
    dev.major = 1;
    assert_eq!(open_inode(&mut fds, &mut t, 9, &dev, O_RDWR), 5);
    assert!(matches!(t.files[fds[5].unwrap().idx].typ, FileType::Device { ip: 9, major: 1 }));
    let mut cwd = None;
    assert_eq!(chdir(&mut cwd, 7, &file), usize::MAX);
    assert_eq!(cwd, None);
    assert_eq!(chdir(&mut cwd, 8, &dir), 0);
    assert_eq!(cwd, Some(8));
}

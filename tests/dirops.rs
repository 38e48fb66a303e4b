use kernel_fs::file::{File, FileType};
use kernel_fs::inode::Itable;
use kernel_fs::release::iput;
use kernel_fs::dir::dirlookup;
use kernel_fs::dinode::{ialloc, iload};
use kernel_fs::dirops::{create, dirlink, link, unlink};
use kernel_fs::fs::{mkfs, FileSystem};
use kernel_fs::inode::InodeInner;
use kernel_fs::inode_io::{readi, stat, writei};
use kernel_fs::param::{T_DIR, T_FILE};

fn fresh() -> FileSystem {
    let mut fs = FileSystem::zero(mkfs(2000, 200, 30));
    fs.init(1);
    fs
}

fn inode(typ: i16) -> InodeInner {
    let mut ip = InodeInner::empty();
    ip.valid = true;
    ip.typ = typ;
    ip.nlink = 1;
    ip
}

fn entries(fs: &FileSystem, dp: &InodeInner) -> Vec<u8> {
    readi(dp, &fs.cache, 0, dp.size).unwrap()
}

/// A directory with its `.` and `..` entries, linked from `parent` as `name`.
fn mkdir(fs: &mut FileSystem, parent: &mut InodeInner, parent_inum: u16, inum: u16, name: &[u8]) -> InodeInner {
    let mut d = inode(T_DIR);
    let tx = fs.begin_transaction().unwrap();
    dirlink(&mut d, fs, &tx, &b".".to_vec(), inum).unwrap();
    dirlink(&mut d, fs, &tx, &b"..".to_vec(), parent_inum).unwrap();
    parent.nlink += 1;
    dirlink(parent, fs, &tx, &name.to_vec(), inum).unwrap();
    tx.end(fs);
    d
}

#[test]
fn mkdir_file_unlink() {
    let mut fs = fresh();
    let mut root = mkdir_root(&mut fs);
    let mut d = mkdir(&mut fs, &mut root, 1, 2, b"d");
    let mut f = inode(T_FILE);
    let tx = fs.begin_transaction().unwrap();
    dirlink(&mut d, &mut fs, &tx, &b"f".to_vec(), 3).unwrap();
    assert_eq!(writei(&mut f, &mut fs, &tx, 0, &vec![5u8; 2048]), Ok(2048));
    tx.end(&mut fs);
    assert_eq!(stat(1, 3, &f).size, 2048);
    assert_eq!(dirlookup(&entries(&fs, &d), &b"f".to_vec()), Some((3, 32)));

    let tx = fs.begin_transaction().unwrap();
    assert_eq!(unlink(&mut root, &mut d, &mut fs, &tx, &b"d".to_vec()), Err(()));
    tx.end(&mut fs);
    assert_eq!(dirlookup(&entries(&fs, &root), &b"d".to_vec()), Some((2, 32)));
    assert_eq!(dirlookup(&entries(&fs, &d), &b"f".to_vec()), Some((3, 32)));

    let tx = fs.begin_transaction().unwrap();
    assert_eq!(unlink(&mut d, &mut f, &mut fs, &tx, &b"f".to_vec()), Ok(()));
    assert_eq!(f.nlink, 0);
    let root_links = root.nlink;
    assert_eq!(unlink(&mut root, &mut d, &mut fs, &tx, &b"d".to_vec()), Ok(()));
    tx.end(&mut fs);
    assert_eq!(root.nlink, root_links - 1);
    assert_eq!(dirlookup(&entries(&fs, &root), &b"d".to_vec()), None);
}

fn mkdir_root(fs: &mut FileSystem) -> InodeInner {
    let mut root = inode(T_DIR);
    let tx = fs.begin_transaction().unwrap();
    dirlink(&mut root, fs, &tx, &b".".to_vec(), 1).unwrap();
    dirlink(&mut root, fs, &tx, &b"..".to_vec(), 1).unwrap();
    tx.end(fs);
    root
}

#[test]
fn link_then_unlink() {
    let mut fs = fresh();
    let mut root = mkdir_root(&mut fs);
    let mut a = inode(T_FILE);
    let tx = fs.begin_transaction().unwrap();
    dirlink(&mut root, &mut fs, &tx, &b"a".to_vec(), 5).unwrap();
    writei(&mut a, &mut fs, &tx, 0, &b"content".to_vec()).unwrap();
    tx.end(&mut fs);
    let before = a.nlink;

    let tx = fs.begin_transaction().unwrap();
    assert_eq!(link(&mut a, 5, &mut root, &mut fs, &tx, &b"b".to_vec()), Ok(()));
    assert_eq!(link(&mut a, 5, &mut root, &mut fs, &tx, &b"b".to_vec()), Err(()));
    assert_eq!(dirlink(&mut root, &mut fs, &tx, &b"b".to_vec(), 5), Err(()));
    let mut dir = inode(T_DIR);
    assert_eq!(link(&mut dir, 6, &mut root, &mut fs, &tx, &b"c".to_vec()), Err(()));
    assert_eq!(dir.nlink, 1);
    tx.end(&mut fs);
    assert_eq!(iload(&fs, 5).nlink, before + 1);
    let d = entries(&fs, &root);
    let (ia, _) = dirlookup(&d, &b"a".to_vec()).unwrap();
    let (ib, _) = dirlookup(&d, &b"b".to_vec()).unwrap();
    assert_eq!(stat(1, ia as u32, &a), stat(1, ib as u32, &a));
    assert_eq!(a.nlink, before + 1);

    let tx = fs.begin_transaction().unwrap();
    assert_eq!(unlink(&mut root, &mut a, &mut fs, &tx, &b"b".to_vec()), Ok(()));
    assert_eq!(unlink(&mut root, &mut a, &mut fs, &tx, &b"..".to_vec()), Err(()));
    assert_eq!(unlink(&mut root, &mut a, &mut fs, &tx, &b"zz".to_vec()), Err(()));
    tx.end(&mut fs);
    assert_eq!(a.nlink, before);
    assert_eq!(readi(&a, &fs.cache, 0, 100).unwrap(), b"content".to_vec());
    assert_eq!(dirlookup(&entries(&fs, &root), &b"a".to_vec()), Some((5, 32)));
    assert_eq!(dirlookup(&entries(&fs, &root), &b"b".to_vec()), None);
}

#[test]
fn create_directory_and_file() {
    let mut fs = fresh();
    let tx = fs.begin_transaction().unwrap();
    let root_inum = ialloc(&mut fs, &tx, T_DIR).unwrap();
    assert_eq!(root_inum, 1);
    let mut root = inode(T_DIR);
    dirlink(&mut root, &mut fs, &tx, &b".".to_vec(), 1).unwrap();
    dirlink(&mut root, &mut fs, &tx, &b"..".to_vec(), 1).unwrap();
    let links = root.nlink;
    let (dinum, mut d) = create(&mut root, 1, &mut fs, &tx, &b"d".to_vec(), T_DIR, 0, 0).unwrap();
    assert_eq!(dinum, 2);
    assert_eq!(root.nlink, links + 1);
    assert!(create(&mut root, 1, &mut fs, &tx, &b"d".to_vec(), T_FILE, 0, 0).is_err());
    tx.end(&mut fs);

    let dd = entries(&fs, &d);
    assert_eq!(dirlookup(&dd, &b".".to_vec()), Some((2, 0)));
    assert_eq!(dirlookup(&dd, &b"..".to_vec()), Some((1, 16)));
    assert_eq!(dirlookup(&entries(&fs, &root), &b"d".to_vec()), Some((2, 32)));
    let on_disk = iload(&fs, 2);
    assert_eq!((on_disk.typ, on_disk.nlink, on_disk.size), (T_DIR, 1, 32));

    let tx = fs.begin_transaction().unwrap();
    let (finum, mut f) = create(&mut d, 2, &mut fs, &tx, &b"f".to_vec(), T_FILE, 0, 0).unwrap();
    assert_eq!(finum, 3);
    assert_eq!(writei(&mut f, &mut fs, &tx, 0, &vec![7u8; 2048]), Ok(2048));
    tx.end(&mut fs);
    assert_eq!(stat(1, finum, &f).size, 2048);
    assert_eq!(dirlookup(&entries(&fs, &d), &b"f".to_vec()), Some((3, 32)));

    let tx = fs.begin_transaction().unwrap();
    assert_eq!(unlink(&mut root, &mut d, &mut fs, &tx, &b"d".to_vec()), Err(()));
    assert_eq!(unlink(&mut d, &mut f, &mut fs, &tx, &b"f".to_vec()), Ok(()));
    assert_eq!(unlink(&mut root, &mut d, &mut fs, &tx, &b"d".to_vec()), Ok(()));
    tx.end(&mut fs);
    assert_eq!(root.nlink, links);
    assert_eq!(dirlookup(&entries(&fs, &root), &b"d".to_vec()), None);
}

#[test]
fn create_reuses_existing_file() {
    let mut fs = fresh();
    let tx = fs.begin_transaction().unwrap();
    assert_eq!(ialloc(&mut fs, &tx, T_DIR), Some(1));
    let mut root = inode(T_DIR);
    dirlink(&mut root, &mut fs, &tx, &b".".to_vec(), 1).unwrap();
    dirlink(&mut root, &mut fs, &tx, &b"..".to_vec(), 1).unwrap();
    let (a, _) = create(&mut root, 1, &mut fs, &tx, &b"a".to_vec(), T_FILE, 0, 0).unwrap();
    let (again, ip) = create(&mut root, 1, &mut fs, &tx, &b"a".to_vec(), T_FILE, 0, 0).unwrap();
    assert_eq!(again, a);
    assert_eq!(ip.typ, T_FILE);
    assert!(create(&mut root, 1, &mut fs, &tx, &b"a".to_vec(), T_DIR, 0, 0).is_err());
    tx.end(&mut fs);
}

#[test]
fn unlinked_file_freed_on_last_put() {
    let mut fs = fresh();
    let tx = fs.begin_transaction().unwrap();
    assert_eq!(ialloc(&mut fs, &tx, T_DIR), Some(1));
    let mut root = inode(T_DIR);
    dirlink(&mut root, &mut fs, &tx, &b".".to_vec(), 1).unwrap();
    dirlink(&mut root, &mut fs, &tx, &b"..".to_vec(), 1).unwrap();
    let (finum, f) = create(&mut root, 1, &mut fs, &tx, &b"f".to_vec(), T_FILE, 0, 0).unwrap();
    tx.end(&mut fs);
    let mut t = Itable::new();
    let i = t.get(1, finum).unwrap();
    t.inodes[i].inner = f;
    let data = vec![3u8; 17408];
    let mut w = File { typ: FileType::Inode { ip: i, off: 0 }, readable: false, writable: true };
    let mut inner = t.inodes[i].inner;
    assert_eq!(w.write_inode(&mut inner, &mut fs, &data), Ok(17408));
    t.inodes[i].inner = inner;
    let ind = inner.addrs[12];
    assert_ne!(ind, 0);
    let tx = fs.begin_transaction().unwrap();
    let mut fi = t.inodes[i].inner;
    assert_eq!(unlink(&mut root, &mut fi, &mut fs, &tx, &b"f".to_vec()), Ok(()));
    t.inodes[i].inner = fi;
    assert!(iput(&mut t, i, &mut fs, &tx));
    tx.end(&mut fs);
    assert_eq!(t.inodes[i].inner.size, 0);
    assert_eq!(iload(&fs, finum).typ, 0);
    let sb = fs.superblock.unwrap();
    let bit = |b: u32| {
        let bm = fs.disk.read(sb.bblock(b) as usize);
        let bi = (b % 8192) as usize;
        bm[bi / 8] & (1u8 << (bi % 8)) != 0
    };
    assert!(!bit(ind));
    for a in &inner.addrs[0..12] {
        assert!(!bit(*a));
    }
}

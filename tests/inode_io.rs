use kernel_fs::dir::{dirent, dirlink_slot, dirlookup, isdirempty};
use kernel_fs::file::{write_chunks, File, FileType};
use kernel_fs::fs::{mkfs, FileSystem};
use kernel_fs::inode::{Inode, InodeInner, Itable};
use kernel_fs::dinode::{iload, iupdate};
use kernel_fs::inode_io::{itrunc, readi, stat, writei};
use kernel_fs::param::{BSIZE, MAXFILE, NDIRECT, T_DIR, T_FILE};

fn fresh() -> FileSystem {
    let mut fs = FileSystem::zero(mkfs(2000, 200, 30));
    fs.init(1);
    fs
}

fn new_file() -> InodeInner {
    let mut ip = InodeInner::empty();
    ip.valid = true;
    ip.typ = T_FILE;
    ip.nlink = 1;
    ip
}

fn in_use(fs: &FileSystem, b: u32) -> bool {
    let sb = fs.superblock.unwrap();
    let bm = fs.cache.read(sb.bblock(b) as usize);
    let bi = (b % 8192) as usize;
    bm[bi / 8] & (1u8 << (bi % 8)) != 0
}

fn write_all(fs: &mut FileSystem, ip: &mut InodeInner, off: u32, data: &[u8]) -> usize {
    let mut done = 0usize;
    for c in write_chunks(data.len() as u32) {
        let tx = fs.begin_transaction().unwrap();
        let part = data[done..done + c as usize].to_vec();
        let n = writei(ip, fs, &tx, off + done as u32, &part).unwrap();
        tx.end(fs);
        assert_eq!(n, c as usize);
        done += n;
    }
    done
}

fn pattern(n: usize) -> Vec<u8> {
    (0..n).map(|i| (i * 7 % 253) as u8).collect()
}

#[test]
fn write_then_read_back() {
    let mut fs = fresh();
    let mut ip = new_file();
    let data = pattern(5000);
    assert_eq!(write_all(&mut fs, &mut ip, 0, &data), 5000);
    assert_eq!(ip.size, 5000);
    assert_eq!(readi(&ip, &fs.cache, 0, 5000).unwrap(), data);
    assert_eq!(readi(&ip, &fs.cache, 4990, 100).unwrap(), data[4990..].to_vec());
    assert_eq!(readi(&ip, &fs.cache, 5000, 10).unwrap(), Vec::<u8>::new());
    assert!(readi(&ip, &fs.cache, 5001, 1).is_err());
    assert!(readi(&ip, &fs.cache, 10, u32::MAX).is_err());
}

#[test]
fn hi_round_trip() {
    let mut fs = fresh();
    let mut ip = new_file();
    assert_eq!(write_all(&mut fs, &mut ip, 0, b"hi"), 2);
    let st = stat(1, 2, &ip);
    assert_eq!(st.size, 2);
    assert_eq!(st.ino, 2);
    assert_eq!(readi(&ip, &fs.cache, 0, 16).unwrap(), b"hi".to_vec());
    // the committed transaction reached the device
    let a = ip.addrs[0] as usize;
    assert_eq!(&fs.disk.read(a)[0..2], b"hi");
}

#[test]
fn append_one_byte() {
    let mut fs = fresh();
    let mut ip = new_file();
    write_all(&mut fs, &mut ip, 0, &pattern(1024));
    assert_eq!(ip.size, 1024);
    write_all(&mut fs, &mut ip, 1024, &[9]);
    assert_eq!(ip.size, 1025);
    assert_eq!(readi(&ip, &fs.cache, 1024, 1).unwrap(), vec![9]);
    assert_eq!(readi(&ip, &fs.cache, 0, 1024).unwrap(), pattern(1024));
}

#[test]
fn overwrite_keeps_other_bytes() {
    let mut fs = fresh();
    let mut ip = new_file();
    let mut data = pattern(3000);
    write_all(&mut fs, &mut ip, 0, &data);
    write_all(&mut fs, &mut ip, 1000, &[1, 2, 3]);
    data[1000..1003].copy_from_slice(&[1, 2, 3]);
    assert_eq!(ip.size, 3000);
    assert_eq!(readi(&ip, &fs.cache, 0, 3000).unwrap(), data);
}

#[test]
fn write_past_end_fails() {
    let mut fs = fresh();
    let mut ip = new_file();
    let tx = fs.begin_transaction().unwrap();
    assert!(writei(&mut ip, &mut fs, &tx, 1, &vec![1u8]).is_err());
    tx.end(&mut fs);
    assert_eq!(ip.size, 0);
}

#[test]
fn largest_file() {
    let mut fs = fresh();
    let mut ip = new_file();
    let max = MAXFILE * BSIZE;
    let data = pattern(max);
    assert_eq!(write_all(&mut fs, &mut ip, 0, &data), max);
    assert_eq!(ip.size as usize, max);
    let tx = fs.begin_transaction().unwrap();
    assert!(writei(&mut ip, &mut fs, &tx, max as u32, &vec![1u8]).is_err());
    tx.end(&mut fs);
    assert_eq!(readi(&ip, &fs.cache, 0, max as u32).unwrap(), data);
}

#[test]
fn indirect_blocks_freed_by_truncate() {
    let mut fs = fresh();
    let mut ip = new_file();
    let n = (NDIRECT + 5) * BSIZE;
    let data = pattern(n);
    assert_eq!(write_all(&mut fs, &mut ip, 0, &data), n);
    assert_eq!(readi(&ip, &fs.cache, 0, n as u32).unwrap(), data);
    let ind = ip.addrs[NDIRECT];
    assert_ne!(ind, 0);
    assert!(in_use(&fs, ind));
    let blk = fs.cache.read(ind as usize);
    let mut data_blocks: Vec<u32> = ip.addrs[0..NDIRECT].to_vec();
    for k in 0..5 {
        let b = u32::from_le_bytes([blk[4 * k], blk[4 * k + 1], blk[4 * k + 2], blk[4 * k + 3]]);
        assert_ne!(b, 0);
        data_blocks.push(b);
    }
    for b in &data_blocks {
        assert!(in_use(&fs, *b));
    }
    let tx = fs.begin_transaction().unwrap();
    assert!(itrunc(&mut ip, &mut fs, &tx));
    tx.end(&mut fs);
    assert_eq!(ip.size, 0);
    assert!(ip.addrs.iter().all(|a| *a == 0));
    assert!(!in_use(&fs, ind));
    for b in &data_blocks {
        assert!(!in_use(&fs, *b));
    }
}

#[test]
fn directory_entries() {
    let mut d: Vec<u8> = Vec::new();
    d.extend(dirent(1, &b".".to_vec()));
    d.extend(dirent(1, &b"..".to_vec()));
    assert!(isdirempty(&d));
    assert_eq!(dirlink_slot(&d, &b"f".to_vec()), Ok(32));
    d.extend(dirent(7, &b"f".to_vec()));
    assert!(!isdirempty(&d));
    assert_eq!(dirlookup(&d, &b"f".to_vec()), Some((7, 32)));
    assert_eq!(dirlookup(&d, &b"g".to_vec()), None);
    assert_eq!(dirlookup(&d, &b"..".to_vec()), Some((1, 16)));
    assert_eq!(dirlink_slot(&d, &b"f".to_vec()), Err(()));
    // unlink "f": its slot is cleared and reused
    d[32] = 0;
    d[33] = 0;
    assert!(isdirempty(&d));
    assert_eq!(dirlookup(&d, &b"f".to_vec()), None);
    assert_eq!(dirlink_slot(&d, &b"g".to_vec()), Ok(32));
    let long = b"abcdefghijklmn".to_vec();
    let e = dirent(300, &long);
    assert_eq!(e.len(), 16);
    assert_eq!(&e[0..2], &[44, 1]);
    assert_eq!(dirlookup(&e, &long), Some((300, 0)));
    assert_eq!(T_DIR, 1);
}

#[test]
fn open_file_write_then_read() {
    let mut fs = fresh();
    let mut ip = new_file();
    let mut w = File { typ: FileType::Inode { ip: 0, off: 0 }, readable: false, writable: true };
    assert_eq!(w.write_inode(&mut ip, &mut fs, &b"hi".to_vec()), Ok(2));
    assert!(matches!(w.typ, FileType::Inode { ip: 0, off: 2 }));
    let mut r = File { typ: FileType::Inode { ip: 0, off: 0 }, readable: true, writable: false };
    assert_eq!(r.read_inode(&ip, &fs, 16), Ok(b"hi".to_vec()));
    assert!(matches!(r.typ, FileType::Inode { ip: 0, off: 2 }));
    assert_eq!(r.read_inode(&ip, &fs, 16), Ok(Vec::new()));
}

#[test]
fn open_file_large_write_spans_transactions() {
    let mut fs = fresh();
    let mut ip = new_file();
    let data = pattern(20000);
    let mut w = File { typ: FileType::Inode { ip: 0, off: 0 }, readable: true, writable: true };
    assert_eq!(w.write_inode(&mut ip, &mut fs, &data), Ok(20000));
    assert_eq!(fs.log.outstanding, 0);
    assert_eq!(fs.log.len(), 0);
    assert_eq!(readi(&ip, &fs.cache, 0, 20000).unwrap(), data);
    let mut past = File { typ: FileType::Inode { ip: 0, off: 30000 }, readable: true, writable: true };
    assert_eq!(past.write_inode(&mut ip, &mut fs, &data), Err(()));
}

#[test]
fn inode_update_then_load() {
    let mut fs = fresh();
    let mut ip = new_file();
    ip.typ = -2;
    ip.major = 3;
    ip.minor = 0xbeef;
    ip.nlink = 2;
    ip.size = 70000;
    for k in 0..13 {
        ip.addrs[k] = 1000 + k as u32 * 77;
    }
    let tx = fs.begin_transaction().unwrap();
    iupdate(&ip, &mut fs, &tx, 17);
    tx.end(&mut fs);
    let back = iload(&fs, 17);
    assert!(back.valid);
    assert_eq!((back.typ, back.major, back.minor, back.nlink, back.size), (-2, 3, 0xbeef, 2, 70000));
    assert_eq!(back.addrs, ip.addrs);
    let other = iload(&fs, 16);
    assert_eq!(other.typ, 0);
    let sb = fs.superblock.unwrap();
    let blk = fs.disk.read(sb.iblock(17) as usize);
    let off = (17 % 16) * 64;
    assert_eq!(&blk[off..off + 2], &[0xfe, 0xff]);
    assert_eq!(&blk[off + 8..off + 12], &[0x70, 0x11, 0x01, 0x00]);
}

#[test]
fn inode_lock_loads_once() {
    let mut fs = fresh();
    let mut d = new_file();
    d.size = 10;
    let tx = fs.begin_transaction().unwrap();
    iupdate(&d, &mut fs, &tx, 3);
    tx.end(&mut fs);
    let mut ip = Inode::new(1, 3);
    let g = ip.lock(9, &fs).unwrap();
    assert!(ip.inner.valid);
    assert_eq!(ip.inner.size, 10);
    assert_eq!(ip.inner.typ, T_FILE);
    assert!(ip.lock(8, &fs).is_none());
    ip.unlock(g);
    d.size = 99;
    let tx = fs.begin_transaction().unwrap();
    iupdate(&d, &mut fs, &tx, 3);
    tx.end(&mut fs);
    let g = ip.lock(8, &fs).unwrap();
    assert_eq!(ip.inner.size, 10);
    ip.unlock(g);
    assert!(!ip.put_frees());
    ip.dup();
    assert_eq!(ip.ref_0, 2);
    ip.put();
    ip.put();
    assert_eq!(ip.ref_0, 0);
}

#[test]
fn inode_table_get_and_put() {

    let mut t = Itable::new();
    let a = t.get(1, 5).unwrap();
    assert_eq!(a, 0);
    assert_eq!(t.inodes[a].ref_0, 1);
    assert!(!t.inodes[a].inner.valid);
    let b = t.get(1, 6).unwrap();
    assert_eq!(b, 1);
    assert_eq!(t.get(1, 5), Some(0));
    assert_eq!(t.inodes[0].ref_0, 2);
    assert!(!t.put(0));
    assert!(!t.put(0));
    assert_eq!(t.inodes[0].ref_0, 0);
    // the free entry is reused for another inode
    assert_eq!(t.get(1, 7), Some(0));
    assert_eq!(t.inodes[0].inum, 7);
    for i in 0..48u32 {
        assert!(t.get(2, i).is_some());
    }
    assert_eq!(t.get(3, 1), None);
    assert_eq!(t.get(1, 6), Some(1));
}

#[test]
fn last_put_of_unlinked_inode_frees() {

    let mut t = Itable::new();
    let i = t.get(1, 3).unwrap();
    let mut d = new_file();
    d.nlink = 0;
    t.inodes[i].inner = d;
    assert!(t.put(i));
}

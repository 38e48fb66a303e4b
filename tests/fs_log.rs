use kernel_fs::disk::Disk;
use kernel_fs::fs::{mkfs, FileSystem, Superblock, FSMAGIC};
use kernel_fs::log::LogInner;
use kernel_fs::param::{BSIZE, LOGSIZE};

fn fresh() -> FileSystem {
    let d = mkfs(2000, 200, 30);
    let mut fs = FileSystem::zero(d);
    fs.init(1);
    fs
}

fn data_start(fs: &FileSystem) -> u32 {
    let sb = fs.superblock.unwrap();
    sb.bmapstart + sb.size / 8192 + 1
}

#[test]
fn mkfs_superblock_round_trip() {
    let d = mkfs(2000, 200, 30);
    let sb = Superblock::read(&d);
    assert_eq!(sb.magic, FSMAGIC);
    assert_eq!(sb.size, 2000);
    assert_eq!(sb.nlog, 30);
    assert_eq!(sb.logstart, 2);
    assert_eq!(sb.inodestart, 32);
    assert_eq!(sb.bmapstart, 32 + 200 / 16 + 1);
    let blk = sb.encode();
    assert_eq!(blk.len(), BSIZE);
    assert_eq!(&blk[0..4], &[0x40, 0x30, 0x20, 0x10]);
    assert_eq!(&blk[4..8], &[0xd0, 0x07, 0, 0]);
}

#[test]
fn init_runs_once() {
    let mut fs = fresh();
    let sb = fs.superblock.unwrap();
    fs.init(7);
    assert_eq!(fs.log.dev, 1);
    assert_eq!(fs.superblock.unwrap().size, sb.size);
    assert_eq!(fs.log.start, 2);
    assert_eq!(fs.log.size, 30);
}

#[test]
fn balloc_hands_out_each_block_once() {
    let mut fs = fresh();
    let ds = data_start(&fs);
    let tx = fs.begin_transaction().unwrap();
    let b1 = tx.balloc(&mut fs).unwrap();
    let b2 = tx.balloc(&mut fs).unwrap();
    assert_eq!(b1, ds);
    assert_eq!(b2, ds + 1);
    tx.bfree(&mut fs, b1);
    let b3 = tx.balloc(&mut fs).unwrap();
    assert_eq!(b3, b1);
    let b4 = tx.balloc(&mut fs).unwrap();
    assert_eq!(b4, ds + 2);
    tx.end(&mut fs);
}

#[test]
fn balloc_zeroes_block_and_sets_bit() {
    let mut fs = fresh();
    let ds = data_start(&fs);
    let tx = fs.begin_transaction().unwrap();
    tx.write(&mut fs, ds, vec![7u8; BSIZE]);
    let b = tx.balloc(&mut fs).unwrap();
    assert_eq!(b, ds);
    assert!(fs.cache.read(b as usize).iter().all(|x| *x == 0));
    let sb = fs.superblock.unwrap();
    let bm = fs.cache.read(sb.bblock(b) as usize);
    let bi = (b % 8192) as usize;
    assert_ne!(bm[bi / 8] & (1u8 << (bi % 8)), 0);
    tx.bfree(&mut fs, b);
    let bm = fs.cache.read(sb.bblock(b) as usize);
    assert_eq!(bm[bi / 8] & (1u8 << (bi % 8)), 0);
    tx.end(&mut fs);
}

#[test]
fn balloc_out_of_blocks() {
    let d = mkfs(40, 16, 4);
    let mut fs = FileSystem::zero(d);
    fs.init(1);
    let ds = data_start(&fs);
    let free = 40 - ds;
    let mut got = Vec::new();
    while got.len() < free as usize {
        let tx = fs.begin_transaction().unwrap();
        got.push(tx.balloc(&mut fs).unwrap());
        tx.end(&mut fs);
    }
    let tx = fs.begin_transaction().unwrap();
    assert_eq!(tx.balloc(&mut fs), None);
    tx.end(&mut fs);
}

#[test]
fn commit_makes_writes_durable() {
    let mut fs = fresh();
    let ds = data_start(&fs) as usize;
    let t1 = fs.begin_transaction().unwrap();
    let t2 = fs.begin_transaction().unwrap();
    assert_eq!(fs.log.outstanding, 2);
    t1.write(&mut fs, ds as u32, vec![1u8; BSIZE]);
    t2.write(&mut fs, ds as u32 + 1, vec![2u8; BSIZE]);
    t1.write(&mut fs, ds as u32, vec![3u8; BSIZE]);
    assert_eq!(fs.log.len(), 2);
    t1.end(&mut fs);
    assert_eq!(fs.log.outstanding, 1);
    assert_eq!(fs.disk.read(ds), vec![0u8; BSIZE]);
    t2.end(&mut fs);
    assert_eq!(fs.log.outstanding, 0);
    assert_eq!(fs.log.len(), 0);
    assert_eq!(fs.disk.read(ds), vec![3u8; BSIZE]);
    assert_eq!(fs.disk.read(ds + 1), vec![2u8; BSIZE]);
    assert_eq!(fs.disk.read_u32(2, 0), 0);
}

#[test]
fn begin_op_waits_for_room() {
    let mut fs = fresh();
    let a = fs.begin_transaction();
    let b = fs.begin_transaction();
    let c = fs.begin_transaction();
    let d = fs.begin_transaction();
    assert!(a.is_some() && b.is_some() && c.is_some());
    assert!(d.is_none());
    assert_eq!(fs.log.outstanding, 3);
    a.unwrap().end(&mut fs);
    assert!(fs.begin_transaction().is_some());
}

#[test]
fn log_write_records_each_block_once() {
    let mut log = LogInner::new(1, 2, 30);
    assert!(log.begin_op());
    log.write(40);
    log.write(41);
    log.write(40);
    assert_eq!(log.len(), 2);
    assert_eq!(log.block(0), 40);
    assert_eq!(log.block(1), 41);
}

fn crash_disk() -> (Disk, Disk, Vec<u32>) {
    let d = mkfs(300, 32, 30);
    let mut cache = d.copy();
    let mut blocks = Vec::new();
    for i in 0..25u32 {
        let b = 100 + i * 3;
        cache.write(b as usize, vec![(i + 1) as u8; BSIZE]);
        blocks.push(b);
    }
    (d, cache, blocks)
}

#[test]
fn crash_after_header_is_replayed() {
    let (mut d, cache, blocks) = crash_disk();
    let mut log = LogInner::new(1, 2, 30);
    for _ in 0..3 {
        assert!(log.begin_op());
    }
    for b in &blocks {
        log.write(*b);
    }
    log.write_log(&mut d, &cache);
    log.write_head(&mut d);
    // power cut: nothing installed yet
    assert_eq!(d.read(100), vec![0u8; BSIZE]);
    assert_eq!(d.read_u32(2, 0), 25);
    let mut log2 = LogInner::new(1, 2, 30);
    log2.recover_from_log(&mut d);
    for (i, b) in blocks.iter().enumerate() {
        assert_eq!(d.read(*b as usize), vec![(i + 1) as u8; BSIZE]);
    }
    assert_eq!(d.read_u32(2, 0), 0);
}

#[test]
fn crash_before_header_is_discarded() {
    let (mut d, cache, blocks) = crash_disk();
    let mut log = LogInner::new(1, 2, 30);
    assert!(log.begin_op());
    for b in &blocks {
        log.write(*b);
    }
    log.write_log(&mut d, &cache);
    let mut log2 = LogInner::new(1, 2, 30);
    log2.recover_from_log(&mut d);
    for b in &blocks {
        assert_eq!(d.read(*b as usize), vec![0u8; BSIZE]);
    }
}

#[test]
fn recovery_is_idempotent() {
    let (mut d, cache, blocks) = crash_disk();
    let mut log = LogInner::new(1, 2, 30);
    assert!(log.begin_op());
    for b in &blocks {
        log.write(*b);
    }
    log.write_log(&mut d, &cache);
    log.write_head(&mut d);
    let mut once = d.copy();
    LogInner::new(1, 2, 30).recover_from_log(&mut once);
    let mut twice = once.copy();
    LogInner::new(1, 2, 30).recover_from_log(&mut twice);
    for b in 0..300usize {
        assert_eq!(once.read(b), twice.read(b));
    }
}

#[test]
fn full_transaction_fits_log() {
    let mut log = LogInner::new(1, 2, 30);
    for _ in 0..3 {
        assert!(log.begin_op());
    }
    for b in 0..(LOGSIZE as u32 - 1) {
        log.write(100 + b);
    }
    assert_eq!(log.len(), LOGSIZE - 1);
    assert!(!log.begin_op());
}

//! Reading and writing an open inode file at its offset. A write is cut into parts of at
//! most `MAXWRITE` bytes, each written in a transaction of its own so that no transaction
//! outgrows the log.
use vstd::prelude::*;

use crate::file::{chunk, nchunks, write_chunks, File, FileType, MAXWRITE};
use crate::fs::allocated;
use crate::fs::FileSystem;
use crate::inode::InodeInner;
use crate::inode_io::{file_data, lemma_owns_mapped, nblocks, owns, readi, writei, written};
use crate::param::{BSIZE, MAXFILE};

verus! {

/// Writing `k` bytes and then the next `m` is writing `k + m` bytes.
proof fn lemma_written_twice(fd: Seq<u8>, size: int, src: Seq<u8>, off: int, k: int, m: int)
    requires
        0 <= off <= size,
        size <= fd.len(),
        0 <= k,
        0 <= m,
        k + m <= src.len(),
    ensures
        written(
            written(fd, size, src, off, k),
            if off + k > size { off + k } else { size },
            src.subrange(k, k + m),
            off + k,
            m,
        ) == written(fd, size, src, off, k + m),
{
    let a = written(written(fd, size, src, off, k), if off + k > size { off + k } else { size }, src.subrange(k, k + m), off + k, m);
    assert(a =~= written(fd, size, src, off, k + m));
}

impl File {
    /// Writes `src` to an inode file at its offset and moves the offset past the bytes
    /// written. The write is cut by `write_chunks`, and each part runs in a transaction of
    /// its own. Fails, writing nothing, when the offset is past the end of the file or the
    /// write would pass the largest file size. When no other operation is under way, all
    /// of `src` is written unless the device runs out of free blocks; otherwise the write
    /// also stops, with the count so far, where the log does not admit the next part.
    pub fn write_inode(&mut self, ip: &mut InodeInner, fs: &mut FileSystem, src: &Vec<u8>) -> (r: Result<usize, ()>)
        requires
            old(self).typ is Inode,
            old(self).writable,
            old(fs).wf(),
            owns(old(fs).cache@, old(fs).sb(), *old(ip), nblocks(*old(ip))),
            src@.len() <= u32::MAX,
        ensures
            final(fs).wf(),
            final(fs).log.outstanding == old(fs).log.outstanding,
            old(fs).log.outstanding == 0 ==> final(fs).synced(),
            final(fs).superblock == old(fs).superblock,
            owns(final(fs).cache@, final(fs).sb(), *final(ip), nblocks(*final(ip))),
            ({
                let off = old(self).typ->Inode_off as int;
                &&& r is Err == (off > old(ip).size || off + src@.len() > MAXFILE * BSIZE)
                &&& r is Err ==> *final(ip) == *old(ip) && final(fs).cache@ == old(fs).cache@ && *final(self) == *old(self)
                &&& r is Ok ==> {
                    let k = r->Ok_0 as int;
                    &&& k <= src@.len()
                    &&& final(ip).size == if off + k > old(ip).size { off + k } else { old(ip).size as int }
                    &&& file_data(final(fs).cache@, *final(ip)) == written(
                        file_data(old(fs).cache@, *old(ip)),
                        old(ip).size as int,
                        src@,
                        off,
                        k,
                    )
                    &&& final(self).typ == (FileType::Inode { ip: old(self).typ->Inode_ip, off: (off + k) as u32 })
                    &&& old(fs).log.outstanding == 0 && old(fs).sb().nlog > 24 ==> k == src@.len() || forall|x: int|
                        0 <= x < final(fs).sb().size ==> #[trigger] allocated(final(fs).cache@, final(fs).sb(), x)
                }
            }),
    {
        let (idx, off) = match self.typ {
            FileType::Inode { ip, off } => (ip, off),
            _ => {
                return Err(());
            },
        };
        let n = src.len();
        proof {
            if fs.log.outstanding == 0 {
                assert(crate::logspec::applied(fs.disk@, fs.cache@, fs.log.blocks()) =~= fs.disk@);
            }
        }
        if off > ip.size || off as u64 + n as u64 > (MAXFILE * BSIZE) as u64 {
            return Err(());
        }
        let ghost fd0 = file_data(fs.cache@, *ip);
        let ghost size0 = ip.size as int;
        let ghost sb = fs.sb();
        let ghost ip0 = *ip;
        let ghost hyp = fs.log.outstanding == 0 && sb.nlog > 24;
        proof {
            if fs.log.outstanding == 0 {
                assert(crate::logspec::applied(fs.disk@, fs.cache@, fs.log.blocks()) =~= fs.disk@);
            }
        }
        let parts = write_chunks(n as u32);
        let mut i: usize = 0;
        let mut done: usize = 0;
        let mut short = false;
        assert(file_data(fs.cache@, *ip) =~= written(fd0, size0, src@, off as int, 0));
        while done < n && !short
            invariant
                fs.wf(),
                fs.sb() == sb,
                fs.superblock == old(fs).superblock,
                fs.log.outstanding == old(fs).log.outstanding,
                hyp == (old(fs).log.outstanding == 0 && sb.nlog > 24),
                old(fs).log.outstanding == 0 ==> fs.synced(),
                n == src@.len(),
                parts@.len() == nchunks(n as int),
                forall|t: int| 0 <= t < parts@.len() ==> #[trigger] parts@[t] == chunk(n as int, t),
                done < n && !short ==> done == i * MAXWRITE,
                off <= size0,
                size0 == ip0.size,
                ip0 == *old(ip),
                old(self).typ == (FileType::Inode { ip: idx, off }),
                fd0 == file_data(old(fs).cache@, *old(ip)),
                fd0.len() == size0,
                off + n <= MAXFILE * BSIZE,
                done <= n,
                ip.size == if off + done > size0 { off + done } else { size0 },
                owns(fs.cache@, sb, *ip, nblocks(*ip)),
                file_data(fs.cache@, *ip) == written(fd0, size0, src@, off as int, done as int),
                self.typ == (FileType::Inode { ip: idx, off: (off + done) as u32 }),
                short && hyp ==> forall|x: int| 0 <= x < sb.size ==> #[trigger] allocated(fs.cache@, sb, x),
            decreases n - done, if short { 0int } else { 1int },
        {
            proof {
                assert(i < parts@.len()) by {
                    vstd::arithmetic::div_mod::lemma_fundamental_div_mod(n as int + MAXWRITE - 1, MAXWRITE as int);
                    assert(i * MAXWRITE < n);
                    assert((i + 1) * MAXWRITE <= n + MAXWRITE - 1);
                    vstd::arithmetic::div_mod::lemma_div_is_ordered((i + 1) * MAXWRITE, n + MAXWRITE - 1, MAXWRITE as int);
                    vstd::arithmetic::div_mod::lemma_fundamental_div_mod_converse((i + 1) * MAXWRITE, MAXWRITE as int, i + 1, 0);
                }
            }
            let c = parts[i] as usize;
            assert(c as int == (if n - done < MAXWRITE { n - done } else { MAXWRITE as int }));
            let mut part: Vec<u8> = Vec::new();
            let mut j: usize = 0;
            while j < c
                invariant
                    j <= c,
                    done + c <= n,
                    n == src@.len(),
                    part@ == src@.subrange(done as int, done + j),
                decreases c - j,
            {
                part.push(src[done + j]);
                j += 1;
                assert(part@ =~= src@.subrange(done as int, done + j));
            }
            proof {
                if hyp {
                    assert(fs.log.blocks().len() == 0);
                    assert(!fs.log.committing);
                }
            }
            let tx = match fs.begin_transaction() {
                Some(tx) => tx,
                None => {
                    // Another operation holds the log: the caller waits and writes the rest.
                    assert(!hyp);
                    return Ok(done);
                },
            };
            let ghost fd1 = file_data(fs.cache@, *ip);
            let ghost size1 = ip.size as int;
            let res = writei(ip, fs, &tx, off + done as u32, &part);
            tx.end(fs);
            match res {
                Ok(v) => {
                    proof {
                        lemma_written_twice(fd0, size0, src@, off as int, done as int, v as int);
                        assert(part@.subrange(0, v as int) =~= src@.subrange(done as int, done + v));
                        assert(written(fd1, size1, part@, off + done, v as int) =~= written(
                            fd1, size1, src@.subrange(done as int, done + v), off + done, v as int));
                    }
                    self.advance(v as u32);
                    done = done + v;
                    i = i + 1;
                    if v < c {
                        short = true;
                    }
                },
                Err(_) => {
                    short = true;
                },
            }
        }
        Ok(done)
    }

    /// Reads up to `n` bytes of an inode file at its offset and moves the offset past them.
    pub fn read_inode(&mut self, ip: &InodeInner, fs: &FileSystem, n: u32) -> (r: Result<Vec<u8>, ()>)
        requires
            old(self).typ is Inode,
            old(self).readable,
            fs.wf(),
            owns(fs.cache@, fs.sb(), *ip, nblocks(*ip)),
        ensures
            ({
                let off = old(self).typ->Inode_off as int;
                &&& r is Err == (off > ip.size || off + n > u32::MAX)
                &&& r is Err ==> *final(self) == *old(self)
                &&& r is Ok ==> {
                    let end = if off + n > ip.size { ip.size as int } else { off + n };
                    &&& r->Ok_0@ == file_data(fs.cache@, *ip).subrange(off, end)
                    &&& final(self).typ == (FileType::Inode { ip: old(self).typ->Inode_ip, off: end as u32 })
                }
            }),
    {
        let off = match self.typ {
            FileType::Inode { off, .. } => off,
            _ => {
                return Err(());
            },
        };
        proof {
            lemma_owns_mapped(fs.cache@, fs.sb(), *ip, nblocks(*ip));
        }
        match readi(ip, &fs.cache, off, n) {
            Ok(v) => {
                self.advance(v.len() as u32);
                Ok(v)
            },
            Err(e) => Err(e),
        }
    }
}

} // verus!

//! A pipe: a bounded ring of bytes with a read end and a write end that close separately.
//! Whether an operation proceeds, fails or must sleep is decided here; sleeping and waking
//! the peer are the scheduler's.
use vstd::prelude::*;

use crate::param::PIPESIZE;

verus! {

pub struct Pipe {
    pub data: Vec<u8>,
    /// Number of bytes read, modulo 2^32.
    pub nread: u32,
    /// Number of bytes written, modulo 2^32.
    pub nwrite: u32,
    pub read_open: bool,
    pub write_open: bool,
}

/// Outcome of a read.
pub enum PipeRead {
    /// Bytes read; none means end of file.
    Data(Vec<u8>),
    /// The pipe is empty and its write end open: sleep, then read again.
    Wait,
    /// The reading process was killed.
    Fail,
}

/// Outcome of a write of the bytes of `src` from position `from` on.
pub enum PipeWrite {
    /// Every byte of `src` is written; the total length.
    Done(usize),
    /// The ring is full: the bytes before this position are written; sleep, then write
    /// again from there.
    Wait(usize),
    /// The read end is closed or the writing process was killed.
    Fail,
}

/// `a + d` as a `u32` counter that wrapped keeps its place in the ring.
proof fn lemma_ring_index(a: int, d: int, j: int)
    requires
        0 <= a,
        0 <= j,
    ensures
        (a - 0x1_0000_0000 + j) % (PIPESIZE as int) == (a + j) % (PIPESIZE as int),
{
    vstd::arithmetic::div_mod::lemma_mod_multiples_vanish(-8388608, a + j, PIPESIZE as int);
}

/// Two positions less than `PIPESIZE` apart fall in different slots of the ring.
proof fn lemma_ring_distinct(x: int, d: int)
    requires
        0 < d < PIPESIZE,
    ensures
        x % (PIPESIZE as int) != (x + d) % (PIPESIZE as int),
{
    vstd::arithmetic::div_mod::lemma_fundamental_div_mod(x, PIPESIZE as int);
    vstd::arithmetic::div_mod::lemma_fundamental_div_mod(x + d, PIPESIZE as int);
    let q1 = x / (PIPESIZE as int);
    let q2 = (x + d) / (PIPESIZE as int);
    if x % (PIPESIZE as int) == (x + d) % (PIPESIZE as int) {
        assert(d == 512 * (q2 - q1));
        assert(false) by (nonlinear_arith)
            requires
                d == 512 * (q2 - q1),
                0 < d < 512,
        ;
    }
}

impl Pipe {
    /// Number of bytes buffered.
    pub open spec fn occ(&self) -> int {
        if self.nwrite >= self.nread {
            self.nwrite - self.nread
        } else {
            self.nwrite + 0x1_0000_0000 - self.nread
        }
    }

    /// The bytes buffered, oldest first.
    pub open spec fn contents(&self) -> Seq<u8> {
        Seq::new(self.occ() as nat, |i: int| self.data@[(self.nread + i) % (PIPESIZE as int)])
    }

    pub open spec fn wf(&self) -> bool {
        &&& self.data@.len() == PIPESIZE
        &&& self.occ() <= PIPESIZE
    }

    /// An empty pipe with both ends open.
    pub fn new() -> (r: Pipe)
        ensures
            r.wf(),
            r.contents() == Seq::<u8>::empty(),
            r.read_open,
            r.write_open,
    {
        let r = Pipe { data: vec![0u8; PIPESIZE], nread: 0, nwrite: 0, read_open: true, write_open: true };
        assert(r.contents() =~= Seq::<u8>::empty());
        r
    }

    /// Reads up to `n` bytes. An empty pipe whose write end is closed gives no bytes (end of
    /// file); an empty pipe whose write end is open asks the caller to sleep, or fails when
    /// the caller was killed.
    pub fn read(&mut self, n: usize, killed: bool) -> (r: PipeRead)
        requires
            old(self).wf(),
        ensures
            final(self).wf(),
            final(self).read_open == old(self).read_open,
            final(self).write_open == old(self).write_open,
            old(self).occ() == 0 && old(self).write_open ==> *final(self) == *old(self) && (if killed {
                r is Fail
            } else {
                r is Wait
            }),
            !(old(self).occ() == 0 && old(self).write_open) ==> {
                let k = if n < old(self).occ() { n as int } else { old(self).occ() };
                &&& r is Data
                &&& r->Data_0@ == old(self).contents().subrange(0, k)
                &&& final(self).contents() == old(self).contents().subrange(k, old(self).occ())
            },
    {
        if self.nwrite == self.nread && self.write_open {
            if killed {
                return PipeRead::Fail;
            } else {
                return PipeRead::Wait;
            }
        }
        let ghost c0 = self.contents();
        let mut out: Vec<u8> = Vec::new();
        let mut i: usize = 0;
        while i < n && self.nread != self.nwrite
            invariant
                self.wf(),
                self.read_open == old(self).read_open,
                self.write_open == old(self).write_open,
                i <= n,
                i <= c0.len(),
                self.occ() == c0.len() - i,
                out@ == c0.subrange(0, i as int),
                self.contents() == c0.subrange(i as int, c0.len() as int),
            decreases n - i,
        {
            let ghost before = self.contents();
            let b = self.data[(self.nread % (PIPESIZE as u32)) as usize];
            assert(b == before[0]);
            out.push(b);
            let ghost r0 = self.nread as int;
            self.nread = self.nread.wrapping_add(1);
            proof {
                assert forall|j: int| 0 <= j < self.occ() implies #[trigger] self.data@[(self.nread + j) % (PIPESIZE as int)]
                    == before[j + 1] by {
                    if r0 + 1 == 0x1_0000_0000 {
                        lemma_ring_index(r0 + 1, 0, j);
                    }
                }
                assert(self.contents() =~= before.subrange(1, before.len() as int));
            }
            i += 1;
            assert(out@ =~= c0.subrange(0, i as int));
            assert(self.contents() =~= c0.subrange(i as int, c0.len() as int));
        }
        PipeRead::Data(out)
    }

    /// Writes the bytes of `src` from position `from` on, until they are all written or
    /// the ring is full. Fails at once when the read end is closed or the caller was killed.
    pub fn write(&mut self, src: &Vec<u8>, from: usize, killed: bool) -> (r: PipeWrite)
        requires
            old(self).wf(),
            from <= src@.len(),
        ensures
            final(self).wf(),
            final(self).read_open == old(self).read_open,
            final(self).write_open == old(self).write_open,
            !old(self).read_open || killed ==> r is Fail && *final(self) == *old(self),
            old(self).read_open && !killed ==> {
                let k = if src@.len() - from < PIPESIZE - old(self).occ() {
                    src@.len() - from
                } else {
                    PIPESIZE - old(self).occ()
                };
                &&& final(self).contents() == old(self).contents() + src@.subrange(from as int, from + k)
                &&& from + k == src@.len() ==> r == PipeWrite::Done(src@.len() as usize)
                &&& from + k < src@.len() ==> r == PipeWrite::Wait((from + k) as usize)
            },
    {
        if !self.read_open || killed {
            return PipeWrite::Fail;
        }
        let ghost c0 = self.contents();
        let ghost room = PIPESIZE - self.occ();
        let mut i: usize = from;
        while i < src.len() && self.nwrite.wrapping_sub(self.nread) != PIPESIZE as u32
            invariant
                self.wf(),
                self.read_open == old(self).read_open,
                self.write_open == old(self).write_open,
                from <= i <= src@.len(),
                room == PIPESIZE - c0.len(),
                i - from <= room,
                self.occ() == c0.len() + (i - from),
                self.contents() == c0 + src@.subrange(from as int, i as int),
            decreases src@.len() - i,
        {
            let ghost before = self.contents();
            let ghost w0 = self.nwrite as int;
            assert(self.nwrite.wrapping_sub(self.nread) == self.occ());
            let idx = (self.nwrite % (PIPESIZE as u32)) as usize;
            proof {
                if self.nwrite < self.nread {
                    lemma_ring_index(self.nread + self.occ(), 0, 0);
                }
                assert(idx as int == (self.nread + self.occ()) % (PIPESIZE as int));
                assert forall|j: int| 0 <= j < self.occ() implies #[trigger] ((self.nread + j) % (PIPESIZE as int))
                    != idx as int by {
                    lemma_ring_distinct(self.nread + j, self.occ() - j);
                }
            }
            self.data.set(idx, src[i]);
            self.nwrite = self.nwrite.wrapping_add(1);
            i += 1;
            proof {
                assert(self.contents() =~= before.push(src@[i - 1]));
                assert(self.contents() =~= c0 + src@.subrange(from as int, i as int));
            }
        }
        if i == src.len() {
            PipeWrite::Done(i)
        } else {
            PipeWrite::Wait(i)
        }
    }

    /// Closes one end: the write end when `writable`, else the read end. `true` when both
    /// ends are then closed and the pipe can be freed.
    pub fn close(&mut self, writable: bool) -> (both_closed: bool)
        ensures
            final(self).contents() == old(self).contents(),
            final(self).write_open == (old(self).write_open && !writable),
            final(self).read_open == (old(self).read_open && writable),
            both_closed == (!final(self).read_open && !final(self).write_open),
    {
        if writable {
            self.write_open = false;
        } else {
            self.read_open = false;
        }
        !self.read_open && !self.write_open
    }
}

} // verus!

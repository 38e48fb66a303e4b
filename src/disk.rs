use vstd::prelude::*;

use crate::param::BSIZE;

verus! {

/// Little-endian value of four bytes.
pub open spec fn le_u32(b0: u8, b1: u8, b2: u8, b3: u8) -> u32 {
    (b0 as u32) | ((b1 as u32) << 8u32) | ((b2 as u32) << 16u32) | ((b3 as u32) << 24u32)
}

/// Byte `k` (0 to 3) of the little-endian form of `v`.
pub open spec fn le_byte(v: u32, k: int) -> u8 {
    if k == 0 {
        (v & 0xffu32) as u8
    } else if k == 1 {
        ((v >> 8u32) & 0xffu32) as u8
    } else if k == 2 {
        ((v >> 16u32) & 0xffu32) as u8
    } else {
        ((v >> 24u32) & 0xffu32) as u8
    }
}

/// The `u32` stored little-endian at `off` in a block.
pub open spec fn get_u32(blk: Seq<u8>, off: int) -> u32 {
    le_u32(blk[off], blk[off + 1], blk[off + 2], blk[off + 3])
}

/// A block with `v` stored little-endian at `off`.
pub open spec fn put_u32(blk: Seq<u8>, off: int, v: u32) -> Seq<u8> {
    blk.update(off, le_byte(v, 0)).update(off + 1, le_byte(v, 1)).update(off + 2, le_byte(v, 2)).update(
        off + 3,
        le_byte(v, 3),
    )
}

/// Four zero bytes read as zero.
pub proof fn lemma_le_zero()
    ensures
        le_u32(0, 0, 0, 0) == 0,
{
    assert(((0u8 as u32) | ((0u8 as u32) << 8u32) | ((0u8 as u32) << 16u32) | ((0u8 as u32) << 24u32))
        == 0u32) by (bit_vector);
}

pub proof fn lemma_le_round_trip(v: u32)
    ensures
        le_u32(le_byte(v, 0), le_byte(v, 1), le_byte(v, 2), le_byte(v, 3)) == v,
{
    let b0 = (v & 0xffu32) as u8;
    let b1 = ((v >> 8u32) & 0xffu32) as u8;
    let b2 = ((v >> 16u32) & 0xffu32) as u8;
    let b3 = ((v >> 24u32) & 0xffu32) as u8;
    assert((b0 as u32) | ((b1 as u32) << 8u32) | ((b2 as u32) << 16u32) | ((b3 as u32) << 24u32)
        == v) by (bit_vector)
        requires
            b0 == (v & 0xffu32) as u8,
            b1 == ((v >> 8u32) & 0xffu32) as u8,
            b2 == ((v >> 16u32) & 0xffu32) as u8,
            b3 == ((v >> 24u32) & 0xffu32) as u8,
    ;
}

/// Storing a value and reading it back gives the value; other offsets keep theirs.
pub proof fn lemma_put_get(blk: Seq<u8>, off: int, v: u32, other: int)
    requires
        0 <= off,
        off + 4 <= blk.len(),
        0 <= other,
        other + 4 <= blk.len(),
    ensures
        get_u32(put_u32(blk, off, v), off) == v,
        other + 4 <= off || off + 4 <= other ==> get_u32(put_u32(blk, off, v), other) == get_u32(
            blk,
            other,
        ),
        put_u32(blk, off, v).len() == blk.len(),
{
    lemma_le_round_trip(v);
}

/// A device as an array of blocks of `BSIZE` bytes.
pub struct Disk {
    blocks: Vec<Vec<u8>>,
}

impl View for Disk {
    type V = Seq<Seq<u8>>;

    closed spec fn view(&self) -> Seq<Seq<u8>> {
        Seq::new(self.blocks@.len(), |i: int| self.blocks@[i]@)
    }
}

/// Every block of the sequence holds exactly `BSIZE` bytes.
pub open spec fn blocks_wf(d: Seq<Seq<u8>>) -> bool {
    forall|i: int| 0 <= i < d.len() ==> #[trigger] d[i].len() == BSIZE
}

impl Disk {
    pub open spec fn wf(&self) -> bool {
        blocks_wf(self@)
    }

    /// A device of `n` zeroed blocks.
    pub fn new(n: usize) -> (r: Disk)
        ensures
            r.wf(),
            r@.len() == n,
            forall|i: int, j: int| 0 <= i < n && 0 <= j < BSIZE ==> #[trigger] r@[i][j] == 0,
    {
        let mut blocks: Vec<Vec<u8>> = Vec::new();
        let mut i: usize = 0;
        while i < n
            invariant
                i <= n,
                blocks@.len() == i,
                forall|k: int| 0 <= k < i ==> #[trigger] blocks@[k]@ == Seq::new(BSIZE as nat, |j: int| 0u8),
            decreases n - i,
        {
            blocks.push(vec![0u8; BSIZE]);
            i += 1;
        }
        let r = Disk { blocks };
        assert forall|k: int| 0 <= k < n implies #[trigger] r@[k].len() == BSIZE by {}
        r
    }

    /// A device with the same contents.
    pub fn copy(&self) -> (r: Disk)
        ensures
            r@ == self@,
    {
        let n = self.blocks.len();
        let mut blocks: Vec<Vec<u8>> = Vec::new();
        let mut i: usize = 0;
        while i < n
            invariant
                n == self@.len(),
                i <= n,
                blocks@.len() == i,
                forall|k: int| 0 <= k < i ==> #[trigger] blocks@[k]@ == self@[k],
            decreases n - i,
        {
            blocks.push(self.read(i));
            i += 1;
        }
        let r = Disk { blocks };
        assert(r@ =~= self@);
        r
    }

    pub fn num_blocks(&self) -> (r: usize)
        ensures
            r == self@.len(),
    {
        self.blocks.len()
    }

    /// A copy of block `b`.
    pub fn read(&self, b: usize) -> (r: Vec<u8>)
        requires
            b < self@.len(),
        ensures
            r@ == self@[b as int],
    {
        let src = &self.blocks[b];
        let mut r: Vec<u8> = Vec::new();
        let mut j: usize = 0;
        while j < src.len()
            invariant
                j <= src@.len(),
                src@ == self@[b as int],
                r@ == src@.subrange(0, j as int),
            decreases src@.len() - j,
        {
            r.push(src[j]);
            j += 1;
            assert(r@ =~= src@.subrange(0, j as int));
        }
        assert(r@ =~= src@);
        r
    }

    /// Replaces block `b`.
    pub fn write(&mut self, b: usize, data: Vec<u8>)
        requires
            b < old(self)@.len(),
        ensures
            final(self)@ == old(self)@.update(b as int, data@),
    {
        self.blocks.set(b, data);
        assert(self@ =~= old(self)@.update(b as int, data@));
    }

    /// Byte `off` of block `b`.
    pub fn read_byte(&self, b: usize, off: usize) -> (r: u8)
        requires
            self.wf(),
            b < self@.len(),
            off < BSIZE,
        ensures
            r == self@[b as int][off as int],
    {
        let blk = &self.blocks[b];
        assert(blk@ == self@[b as int]);
        blk[off]
    }

    /// The `u32` stored little-endian at `off` in block `b`.
    pub fn read_u32(&self, b: usize, off: usize) -> (r: u32)
        requires
            self.wf(),
            b < self@.len(),
            off + 4 <= BSIZE,
        ensures
            r == get_u32(self@[b as int], off as int),
    {
        let blk = &self.blocks[b];
        assert(blk@ == self@[b as int]);
        (blk[off] as u32) | ((blk[off + 1] as u32) << 8u32) | ((blk[off + 2] as u32) << 16u32) | ((
        blk[off + 3] as u32) << 24u32)
    }
}

/// Stores `v` little-endian at `off` in a block held in memory.
pub fn store_u32(blk: &mut Vec<u8>, off: usize, v: u32)
    requires
        off + 4 <= old(blk)@.len(),
        off + 4 <= BSIZE,
    ensures
        final(blk)@ == put_u32(old(blk)@, off as int, v),
{
    blk.set(off, (v & 0xffu32) as u8);
    blk.set(off + 1, ((v >> 8u32) & 0xffu32) as u8);
    blk.set(off + 2, ((v >> 16u32) & 0xffu32) as u8);
    blk.set(off + 3, ((v >> 24u32) & 0xffu32) as u8);
}

} // verus!

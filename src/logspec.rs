use vstd::prelude::*;

use crate::disk::{blocks_wf, get_u32, lemma_put_get, put_u32};
use crate::param::{BSIZE, LOGSIZE};

verus! {

/// No block number occurs twice.
pub open spec fn distinct(bs: Seq<u32>) -> bool {
    forall|i: int, j: int| 0 <= i < bs.len() && 0 <= j < bs.len() && i != j ==> bs[i] != bs[j]
}

/// Block `x` lies in the log region `[start, start + size)`.
pub open spec fn in_log(x: int, start: int, size: int) -> bool {
    start <= x < start + size
}

/// Every block of `bs` is a home block of a device of `n` blocks, outside the log region.
pub open spec fn home_blocks(bs: Seq<u32>, n: int, start: int, size: int) -> bool {
    forall|i: int| 0 <= i < bs.len() ==> #[trigger] bs[i] < n && !in_log(bs[i] as int, start, size)
}

/// The device after the first `j` recorded blocks were copied from the cache into the log.
pub open spec fn log_copied(d: Seq<Seq<u8>>, c: Seq<Seq<u8>>, start: int, bs: Seq<u32>, j: int) -> Seq<
    Seq<u8>,
> {
    Seq::new(
        d.len(),
        |x: int|
            if start + 1 <= x < start + 1 + j {
                c[bs[x - start - 1] as int]
            } else {
                d[x]
            },
    )
}

/// A header block whose first `j` slots hold the block numbers of `bs`.
pub open spec fn header_words(h: Seq<u8>, bs: Seq<u32>, j: int) -> Seq<u8>
    decreases j,
{
    if j <= 0 {
        h
    } else {
        put_u32(header_words(h, bs, j - 1), 4 * j, bs[j - 1])
    }
}

/// A header block that records the transaction `bs`.
pub open spec fn header_with(h: Seq<u8>, bs: Seq<u32>) -> Seq<u8> {
    put_u32(header_words(h, bs, bs.len() as int), 0, bs.len() as u32)
}

/// The device after the header at `start` was written to record `bs`.
pub open spec fn head_written(d: Seq<Seq<u8>>, start: int, bs: Seq<u32>) -> Seq<Seq<u8>> {
    d.update(start, header_with(d[start], bs))
}

/// The device after the first `j` logged blocks were copied to their home blocks.
pub open spec fn installed(d: Seq<Seq<u8>>, start: int, bs: Seq<u32>, j: int) -> Seq<Seq<u8>>
    decreases j,
{
    if j <= 0 {
        d
    } else {
        installed(d, start, bs, j - 1).update(bs[j - 1] as int, d[start + j])
    }
}

/// Number of committed blocks recorded in the header at `start`.
pub open spec fn head_n(d: Seq<Seq<u8>>, start: int) -> int {
    get_u32(d[start], 0) as int
}

/// Block numbers recorded in the header at `start`.
pub open spec fn head_blocks(d: Seq<Seq<u8>>, start: int) -> Seq<u32> {
    Seq::new(head_n(d, start) as nat, |i: int| get_u32(d[start], 4 * (i + 1)))
}

/// The header at `start` can be replayed: it fits the log region and names home blocks.
pub open spec fn head_ok(d: Seq<Seq<u8>>, start: int, size: int) -> bool {
    &&& head_n(d, start) <= LOGSIZE
    &&& head_n(d, start) + 1 <= size
    &&& home_blocks(head_blocks(d, start), d.len() as int, start, size)
    &&& distinct(head_blocks(d, start))
}

/// What a recovery makes of the device: replay the committed blocks, then empty the log.
pub open spec fn recovered(d: Seq<Seq<u8>>, start: int) -> Seq<Seq<u8>> {
    let bs = head_blocks(d, start);
    head_written(installed(d, start, bs, bs.len() as int), start, Seq::empty())
}

/// The device after a whole commit of `bs`, taken from the cache `c`.
pub open spec fn committed(d: Seq<Seq<u8>>, c: Seq<Seq<u8>>, start: int, bs: Seq<u32>) -> Seq<Seq<u8>> {
    if bs.len() == 0 {
        d
    } else {
        let d1 = log_copied(d, c, start, bs, bs.len() as int);
        let d2 = head_written(d1, start, bs);
        head_written(installed(d2, start, bs, bs.len() as int), start, Seq::empty())
    }
}

/// The device with the blocks of `bs` set to their contents in the cache `c`.
pub open spec fn applied(d: Seq<Seq<u8>>, c: Seq<Seq<u8>>, bs: Seq<u32>) -> Seq<Seq<u8>> {
    Seq::new(
        d.len(),
        |x: int| if exists|i: int| 0 <= i < bs.len() && bs[i] as int == x { c[x] } else { d[x] },
    )
}

/// The two devices agree outside the log region.
pub open spec fn same_home(a: Seq<Seq<u8>>, b: Seq<Seq<u8>>, start: int, size: int) -> bool {
    &&& a.len() == b.len()
    &&& forall|x: int| 0 <= x < a.len() && !in_log(x, start, size) ==> #[trigger] a[x] == b[x]
}

/// Layout that a commit of `bs` from cache `c` onto device `d` needs.
pub open spec fn commit_ok(
    d: Seq<Seq<u8>>,
    c: Seq<Seq<u8>>,
    start: int,
    size: int,
    bs: Seq<u32>,
) -> bool {
    &&& blocks_wf(d)
    &&& blocks_wf(c)
    &&& c.len() == d.len()
    &&& 0 <= start
    &&& start + size <= d.len()
    &&& bs.len() <= LOGSIZE
    &&& bs.len() + 1 <= size
    &&& distinct(bs)
    &&& home_blocks(bs, d.len() as int, start, size)
}

pub proof fn lemma_header_words(h: Seq<u8>, bs: Seq<u32>, j: int)
    requires
        h.len() == BSIZE,
        0 <= j <= bs.len() <= LOGSIZE,
    ensures
        header_words(h, bs, j).len() == BSIZE,
        get_u32(header_words(h, bs, j), 0) == get_u32(h, 0),
        forall|i: int| 0 <= i < j ==> get_u32(header_words(h, bs, j), 4 * (i + 1)) == bs[i],
    decreases j,
{
    if j > 0 {
        lemma_header_words(h, bs, j - 1);
        let p = header_words(h, bs, j - 1);
        lemma_put_get(p, 4 * j, bs[j - 1], 0);
        assert forall|i: int| 0 <= i < j implies get_u32(header_words(h, bs, j), 4 * (i + 1))
            == bs[i] by {
            lemma_put_get(p, 4 * j, bs[j - 1], 4 * (i + 1));
        }
    }
}

/// A header written for `bs` reads back as `bs`.
pub proof fn lemma_header_decode(d: Seq<Seq<u8>>, start: int, bs: Seq<u32>)
    requires
        blocks_wf(d),
        0 <= start < d.len(),
        bs.len() <= LOGSIZE,
    ensures
        head_n(head_written(d, start, bs), start) == bs.len(),
        head_blocks(head_written(d, start, bs), start) == bs,
        head_written(d, start, bs)[start].len() == BSIZE,
{
    lemma_header_words(d[start], bs, bs.len() as int);
    let w = header_words(d[start], bs, bs.len() as int);
    lemma_put_get(w, 0, bs.len() as u32, 0);
    assert forall|i: int| 0 <= i < bs.len() implies get_u32(header_with(d[start], bs), 4 * (i + 1))
        == bs[i] by {
        lemma_put_get(w, 0, bs.len() as u32, 4 * (i + 1));
    }
    assert(head_blocks(head_written(d, start, bs), start) =~= bs);
}

/// What an install of the first `j` logged blocks leaves in each block.
pub proof fn lemma_installed(d: Seq<Seq<u8>>, start: int, size: int, bs: Seq<u32>, j: int)
    requires
        0 <= j <= bs.len(),
        distinct(bs),
        home_blocks(bs, d.len() as int, start, size),
    ensures
        installed(d, start, bs, j).len() == d.len(),
        forall|i: int| 0 <= i < j ==> #[trigger] installed(d, start, bs, j)[bs[i] as int] == d[start + 1 + i],
        forall|x: int|
            0 <= x < d.len() && (forall|i: int| 0 <= i < j ==> bs[i] != x) ==> #[trigger] installed(
                d,
                start,
                bs,
                j,
            )[x] == d[x],
    decreases j,
{
    if j > 0 {
        lemma_installed(d, start, size, bs, j - 1);
        let p = installed(d, start, bs, j - 1);
        assert(bs[j - 1] < d.len());
        assert forall|i: int| 0 <= i < j implies #[trigger] installed(d, start, bs, j)[bs[i] as int]
            == d[start + 1 + i] by {
            if i < j - 1 {
                assert(bs[i] != bs[j - 1]);
            }
        }
    }
}

/// The device as a crash may leave it during a commit of `bs`: while the log blocks are
/// written (`stage == 0`), after the header was written and while blocks are installed
/// (`stage == 1`), or after the log was emptied (`stage == 2`); `j` blocks of the stage are done.
pub open spec fn crash_state(
    d: Seq<Seq<u8>>,
    c: Seq<Seq<u8>>,
    start: int,
    bs: Seq<u32>,
    stage: int,
    j: int,
) -> Seq<Seq<u8>> {
    if stage == 0 {
        log_copied(d, c, start, bs, j)
    } else if stage == 1 {
        installed(head_written(log_copied(d, c, start, bs, bs.len() as int), start, bs), start, bs, j)
    } else {
        committed(d, c, start, bs)
    }
}

proof fn lemma_empty_head_recovers(s: Seq<Seq<u8>>, start: int)
    requires
        0 <= start < s.len(),
        head_n(s, start) == 0,
    ensures
        recovered(s, start) == head_written(s, start, Seq::empty()),
{
    assert(head_blocks(s, start) =~= Seq::<u32>::empty());
}

/// A commit leaves, outside the log region, the device with the logged blocks taken from
/// the cache.
pub proof fn lemma_commit_applies(
    d: Seq<Seq<u8>>,
    c: Seq<Seq<u8>>,
    start: int,
    size: int,
    bs: Seq<u32>,
)
    requires
        commit_ok(d, c, start, size, bs),
    ensures
        same_home(committed(d, c, start, bs), applied(d, c, bs), start, size),
{
    if bs.len() > 0 {
        let n = bs.len() as int;
        let d1 = log_copied(d, c, start, bs, n);
        let d2 = head_written(d1, start, bs);
        lemma_installed(d2, start, size, bs, n);
        let post = committed(d, c, start, bs);
        assert forall|x: int| 0 <= x < post.len() && !in_log(x, start, size) implies #[trigger] post[x]
            == applied(d, c, bs)[x] by {
            if exists|i: int| 0 <= i < n && bs[i] == x {
                let i = choose|i: int| 0 <= i < n && bs[i] == x;
                assert(installed(d2, start, bs, n)[bs[i] as int] == d2[start + 1 + i]);
            }
        }
    } else {
        assert forall|x: int| 0 <= x < d.len() && !in_log(x, start, size) implies #[trigger] d[x]
            == applied(d, c, bs)[x] by {}
    }
}

/// A crash at any single point of a commit leaves a device that recovery brings, outside
/// the log region, to the state before the commit (crash before the header was written)
/// or to the state after it (crash after).
pub proof fn lemma_commit_crash_atomic(
    d: Seq<Seq<u8>>,
    c: Seq<Seq<u8>>,
    start: int,
    size: int,
    bs: Seq<u32>,
    stage: int,
    j: int,
)
    requires
        commit_ok(d, c, start, size, bs),
        head_n(d, start) == 0,
        bs.len() > 0,
        0 <= stage <= 2,
        0 <= j <= bs.len(),
    ensures
        stage == 0 ==> same_home(recovered(crash_state(d, c, start, bs, stage, j), start), d, start, size),
        stage > 0 ==> same_home(
            recovered(crash_state(d, c, start, bs, stage, j), start),
            committed(d, c, start, bs),
            start,
            size,
        ),
{
    let n = bs.len() as int;
    let s = crash_state(d, c, start, bs, stage, j);
    let d1 = log_copied(d, c, start, bs, n);
    let d2 = head_written(d1, start, bs);
    let post = committed(d, c, start, bs);
    lemma_header_decode(d1, start, bs);
    lemma_installed(d2, start, size, bs, n);
    if stage == 0 {
        assert(s[start] == d[start]);
        lemma_empty_head_recovers(s, start);
    } else if stage == 1 {
        lemma_installed(d2, start, size, bs, j);
        assert(s[start] == d2[start]);
        assert(head_blocks(s, start) =~= head_blocks(d2, start));
        lemma_installed(s, start, size, bs, n);
        let r = recovered(s, start);
        assert forall|x: int| 0 <= x < r.len() && !in_log(x, start, size) implies #[trigger] r[x]
            == post[x] by {
            if exists|i: int| 0 <= i < n && bs[i] == x {
                let i = choose|i: int| 0 <= i < n && bs[i] == x;
                assert(installed(s, start, bs, n)[bs[i] as int] == s[start + 1 + i]);
                assert(installed(d2, start, bs, n)[bs[i] as int] == d2[start + 1 + i]);
                assert(forall|k: int| 0 <= k < j ==> bs[k] != start + 1 + i);
            } else {
                assert(forall|k: int| 0 <= k < j ==> bs[k] != x);
            }
        }
    } else {
        lemma_put_get(header_words(post[start], Seq::empty(), 0), 0, 0, 0);
        assert(get_u32(post[start], 0) == 0) by {
            lemma_header_words(installed(d2, start, bs, n)[start], Seq::<u32>::empty(), 0);
            lemma_put_get(installed(d2, start, bs, n)[start], 0, 0, 0);
        }
        lemma_empty_head_recovers(s, start);
        lemma_header_words(s[start], Seq::<u32>::empty(), 0);
    }
}

/// Recovering twice leaves the device as recovering once does.
pub proof fn lemma_recover_idempotent(d: Seq<Seq<u8>>, start: int, size: int)
    requires
        blocks_wf(d),
        0 <= start,
        start + size <= d.len(),
        head_ok(d, start, size),
    ensures
        recovered(recovered(d, start), start) == recovered(d, start),
{
    let bs = head_blocks(d, start);
    let i1 = installed(d, start, bs, bs.len() as int);
    lemma_installed(d, start, size, bs, bs.len() as int);
    assert(i1[start] == d[start]);
    let r = recovered(d, start);
    lemma_header_words(i1[start], Seq::<u32>::empty(), 0);
    lemma_put_get(i1[start], 0, 0, 0);
    lemma_empty_head_recovers(r, start);
    lemma_put_get(r[start], 0, 0, 0);
    assert(put_u32(r[start], 0, 0) =~= r[start]);
    assert(recovered(r, start) =~= r);
}

/// The stages of a commit keep every block at `BSIZE` bytes.
pub proof fn lemma_stages_wf(d: Seq<Seq<u8>>, c: Seq<Seq<u8>>, start: int, size: int, bs: Seq<u32>, j: int)
    requires
        commit_ok(d, c, start, size, bs),
        0 <= j <= bs.len(),
    ensures
        blocks_wf(log_copied(d, c, start, bs, j)),
        log_copied(d, c, start, bs, j).len() == d.len(),
        blocks_wf(installed(d, start, bs, j)),
{
    let l = log_copied(d, c, start, bs, j);
    assert forall|x: int| 0 <= x < l.len() implies #[trigger] l[x].len() == BSIZE by {
        if start + 1 <= x < start + 1 + j {
            assert(bs[x - start - 1] < c.len());
        }
    }
    lemma_installed_wf(d, start, size, bs, j);
}

/// An install keeps every block at `BSIZE` bytes.
pub proof fn lemma_installed_wf(d: Seq<Seq<u8>>, start: int, size: int, bs: Seq<u32>, j: int)
    requires
        blocks_wf(d),
        0 <= start,
        start + size <= d.len(),
        bs.len() + 1 <= size,
        0 <= j <= bs.len(),
        home_blocks(bs, d.len() as int, start, size),
    ensures
        blocks_wf(installed(d, start, bs, j)),
        installed(d, start, bs, j).len() == d.len(),
    decreases j,
{
    if j > 0 {
        lemma_installed_wf(d, start, size, bs, j - 1);
        let p = installed(d, start, bs, j - 1);
        let q = installed(d, start, bs, j);
        assert(bs[j - 1] < d.len());
        assert forall|x: int| 0 <= x < q.len() implies #[trigger] q[x].len() == BSIZE by {
            if x != bs[j - 1] {
                assert(q[x] == p[x]);
            }
        }
    }
}

/// After a recovery the header records no transaction, and outside the log region the
/// device holds the replayed blocks.
pub proof fn lemma_recovered(d: Seq<Seq<u8>>, start: int, size: int)
    requires
        blocks_wf(d),
        0 <= start,
        start + size <= d.len(),
        head_ok(d, start, size),
    ensures
        head_n(recovered(d, start), start) == 0,
        blocks_wf(recovered(d, start)),
        recovered(d, start).len() == d.len(),
{
    let bs = head_blocks(d, start);
    let i1 = installed(d, start, bs, bs.len() as int);
    lemma_installed(d, start, size, bs, bs.len() as int);
    lemma_installed_wf(d, start, size, bs, bs.len() as int);
    lemma_header_decode(i1, start, Seq::<u32>::empty());
    let r = recovered(d, start);
    assert forall|x: int| 0 <= x < r.len() implies #[trigger] r[x].len() == BSIZE by {
        if x != start {
            assert(r[x] == i1[x]);
        }
    }
}

} // verus!

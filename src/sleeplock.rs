//! Sleeping locks: a lock whose holder may block while holding it. The decision to take
//! the lock or to sleep is made here; sleeping and waking are the scheduler's.
use vstd::prelude::*;

verus! {

#[derive(Clone, Copy, Debug)]
pub struct Sleeplock {
    /// Nonzero while held.
    pub locked: u32,
    /// Process holding the lock.
    pub pid: i32,
}

impl Sleeplock {
    /// A free lock.
    pub fn zeroed() -> (r: Sleeplock)
        ensures
            r.locked == 0,
            r.pid == 0,
    {
        Sleeplock { locked: 0, pid: 0 }
    }

    /// A free lock.
    pub fn new() -> (r: Sleeplock)
        ensures
            r.locked == 0,
            r.pid == 0,
    {
        Sleeplock::zeroed()
    }
}

/// Makes the lock free.
pub fn initsleeplock(lk: &mut Sleeplock)
    ensures
        final(lk).locked == 0,
        final(lk).pid == 0,
{
    lk.locked = 0;
    lk.pid = 0;
}

/// Takes the lock for process `pid` if it is free. `false` means the caller must sleep
/// and try again; the lock is then unchanged.
pub fn acquiresleep(lk: &mut Sleeplock, pid: i32) -> (acquired: bool)
    ensures
        acquired == (old(lk).locked == 0),
        acquired ==> final(lk).locked == 1 && final(lk).pid == pid,
        !acquired ==> *final(lk) == *old(lk),
{
    if lk.locked != 0 {
        false
    } else {
        lk.locked = 1;
        lk.pid = pid;
        true
    }
}

/// Frees the lock; the caller then wakes its waiters.
pub fn releasesleep(lk: &mut Sleeplock)
    ensures
        final(lk).locked == 0,
        final(lk).pid == 0,
{
    lk.locked = 0;
    lk.pid = 0;
}

/// 1 when process `pid` holds the lock, else 0.
pub fn holdingsleep(lk: &Sleeplock, pid: i32) -> (r: i32)
    ensures
        r == if lk.locked != 0 && lk.pid == pid {
            1i32
        } else {
            0i32
        },
{
    if lk.locked != 0 && lk.pid == pid {
        1
    } else {
        0
    }
}

} // verus!

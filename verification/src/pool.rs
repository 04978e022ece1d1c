//! The connection pool's accounting: a bounded number of sessions may be out
//! at once. Acquiring from a saturated pool does not hand out a session — the
//! caller waits — and a release always makes room for one more.
use vstd::prelude::*;

verus! {

/// Session accounting for a pool with a fixed capacity.
pub struct ConnectionPool {
    capacity: usize,
    in_use: usize,
}

impl ConnectionPool {
    pub closed spec fn capacity(self) -> int {
        self.capacity as int
    }

    pub closed spec fn in_use(self) -> int {
        self.in_use as int
    }

    /// Never more sessions out than the pool was built for.
    pub open spec fn wf(self) -> bool {
        0 <= self.in_use() <= self.capacity() && 1 <= self.capacity()
    }

    /// A fresh pool of the given size, all sessions at home.
    pub fn new(capacity: usize) -> (p: ConnectionPool)
        requires
            capacity >= 1,
        ensures
            p.wf(),
            p.capacity() == capacity,
            p.in_use() == 0,
    {
        ConnectionPool { capacity, in_use: 0 }
    }

    /// Hands out a session where one is free; a saturated pool hands out
    /// nothing, and the caller must wait for a release.
    pub fn try_acquire(&mut self) -> (r: bool)
        requires
            old(self).wf(),
        ensures
            final(self).wf(),
            final(self).capacity() == old(self).capacity(),
            old(self).in_use() < old(self).capacity() ==> r && final(self).in_use() == old(
                self,
            ).in_use() + 1,
            old(self).in_use() == old(self).capacity() ==> !r && final(self).in_use() == old(
                self,
            ).in_use(),
    {
        if self.in_use < self.capacity {
            self.in_use = self.in_use + 1;
            true
        } else {
            false
        }
    }

    /// Takes a session back.
    pub fn release(&mut self)
        requires
            old(self).wf(),
            old(self).in_use() >= 1,
        ensures
            final(self).wf(),
            final(self).capacity() == old(self).capacity(),
            final(self).in_use() == old(self).in_use() - 1,
    {
        self.in_use = self.in_use - 1;
    }
}

} // verus!

//! The arena the network buffers draw from, modeled by its observable
//! bookkeeping: a bump cursor handing out disjoint address ranges, and the
//! total handed out so far.

use vstd::prelude::*;

verus! {

/// A bump allocator: `palloc` hands out `size` addresses starting at the
/// cursor, so consecutive allocations are contiguous.
pub struct Pool {
    pub allocated: usize,
    pub cursor: usize,
}

impl Pool {
    pub fn new() -> (p: Pool)
        ensures
            p.allocated == 0,
            p.cursor == 4096,
    {
        Pool { allocated: 0, cursor: 4096 }
    }

    /// Reserve `size` bytes; the returned address begins a fresh range
    /// right after everything handed out before.
    pub fn palloc(&mut self, size: usize) -> (base: usize)
        requires
            old(self).cursor + size <= usize::MAX,
            old(self).allocated + size <= usize::MAX,
        ensures
            base == old(self).cursor,
            final(self).cursor == old(self).cursor + size,
            final(self).allocated == old(self).allocated + size,
    {
        let base = self.cursor;
        self.cursor = self.cursor + size;
        self.allocated = self.allocated + size;
        base
    }

    /// How much this arena has handed out.
    pub fn allocated(&self) -> (n: usize)
        ensures
            n == self.allocated,
    {
        self.allocated
    }
}

/// The shared context a message draws its arenas from: when the arena has
/// handed out more than the limit, `gc` replaces it with a fresh one.
pub struct PoolCtx {
    pub pool: Pool,
    pub limit: usize,
}

impl PoolCtx {
    pub fn new(limit: usize) -> (c: PoolCtx)
        ensures
            c.limit == limit,
            c.pool.allocated == 0,
    {
        PoolCtx { pool: Pool::new(), limit }
    }

    /// Replace the arena once it has outgrown the limit; call only between
    /// messages, when no live node still points into it.
    pub fn gc(&mut self)
        ensures
            final(self).limit == old(self).limit,
            old(self).pool.allocated > old(self).limit ==> final(self).pool.allocated == 0,
            old(self).pool.allocated <= old(self).limit ==> final(self).pool == old(self).pool,
    {
        if self.pool.allocated() > self.limit {
            self.pool = Pool::new();
        }
    }
}

} // verus!

//! A named counter accumulated in memory and flushed to the relational store.
use vstd::prelude::*;

verus! {

/// Counts events since the last flush under a key of the `counts` table.
pub struct MonotonicCounter {
    key: String,
    incr: u64,
}

impl MonotonicCounter {
    pub closed spec fn key(&self) -> Seq<char> {
        self.key@
    }

    /// What has been added since the last flush.
    pub closed spec fn pending(&self) -> nat {
        self.incr as nat
    }

    /// The pending count fits its `u64`.
    pub proof fn lemma_pending_bound(&self)
        ensures
            self.pending() <= u64::MAX,
    {
    }

    pub fn new(key: &str) -> (r: MonotonicCounter)
        ensures
            r.key() == key@,
            r.pending() == 0,
    {
        MonotonicCounter { key: key.to_owned(), incr: 0 }
    }

    /// Adds `n`; the pending count stops at `u64::MAX` rather than wrapping.
    pub fn add(&mut self, n: u64)
        ensures
            final(self).key() == old(self).key(),
            final(self).pending() == if old(self).pending() + n > u64::MAX {
                u64::MAX as nat
            } else {
                (old(self).pending() + n) as nat
            },
    {
        self.incr = self.incr.saturating_add(n);
    }

    /// The key that a flush updates.
    pub fn key_str(&self) -> (r: &str)
        ensures
            r@ == self.key(),
    {
        self.key.as_str()
    }

    /// Hands out the pending count for the store to add, and starts again from 0.
    pub fn flush(&mut self) -> (r: u64)
        ensures
            r == old(self).pending(),
            final(self).pending() == 0,
            final(self).key() == old(self).key(),
    {
        let n = self.incr;
        self.incr = 0;
        n
    }
}

} // verus!

//! What a sink reports for one write.
use vstd::prelude::*;

verus! {

/// Counts reported by a sink for one write.
#[derive(Debug, Clone, Copy, PartialEq, Eq, Structural)]
pub struct WriteResult {
    /// Rows newly created.
    pub inserted: usize,
    /// Existing rows modified.
    pub updated: usize,
    /// Rows intentionally skipped by the sink.
    pub skipped: usize,
}

/// The total a write result reports.
pub open spec fn write_total(w: WriteResult) -> int {
    w.inserted + w.updated + w.skipped
}

impl Default for WriteResult {
    fn default() -> (r: Self)
        ensures
            r == (WriteResult { inserted: 0, updated: 0, skipped: 0 }),
    {
        WriteResult { inserted: 0, updated: 0, skipped: 0 }
    }
}

impl WriteResult {
    /// Adds `other`'s counts into `self`, field by field.
    pub fn add(&mut self, other: WriteResult)
        requires
            old(self).inserted + other.inserted <= usize::MAX,
            old(self).updated + other.updated <= usize::MAX,
            old(self).skipped + other.skipped <= usize::MAX,
        ensures
            final(self).inserted == old(self).inserted + other.inserted,
            final(self).updated == old(self).updated + other.updated,
            final(self).skipped == old(self).skipped + other.skipped,
    {
        self.inserted = self.inserted + other.inserted;
        self.updated = self.updated + other.updated;
        self.skipped = self.skipped + other.skipped;
    }

    /// `inserted + updated + skipped`.
    pub fn total(&self) -> (r: usize)
        requires
            write_total(*self) <= usize::MAX,
        ensures
            r == write_total(*self),
    {
        self.inserted + self.updated + self.skipped
    }
}

/// Adding write results adds their totals.
pub proof fn lemma_add_total(a: WriteResult, b: WriteResult, sum: WriteResult)
    requires
        sum.inserted == a.inserted + b.inserted,
        sum.updated == a.updated + b.updated,
        sum.skipped == a.skipped + b.skipped,
    ensures
        write_total(sum) == write_total(a) + write_total(b),
{
}

} // verus!

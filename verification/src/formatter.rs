use vstd::prelude::*;

verus! {

/// Format Metrics: the counts of a formatting run: the files formatted, the files that failed
/// to format, and all the files considered.
pub struct FormatMetrics {
    pub formatted: usize,
    pub failed: usize,
    pub total: usize,
}

impl FormatMetrics {
    /// Returns the metrics of a run that has considered no file yet.
    pub fn new() -> (m: Self)
        ensures
            m.formatted == 0,
            m.failed == 0,
            m.total == 0,
    {
        FormatMetrics { formatted: 0, failed: 0, total: 0 }
    }

    /// Returns a copy of the metrics.
    pub fn copy(&self) -> (m: Self)
        ensures
            m.formatted == self.formatted,
            m.failed == self.failed,
            m.total == self.total,
    {
        FormatMetrics { formatted: self.formatted, failed: self.failed, total: self.total }
    }

    /// Counts one more formatted file.
    pub fn inc_formatted(&mut self)
        requires
            old(self).formatted < usize::MAX,
        ensures
            final(self).formatted == old(self).formatted + 1,
            final(self).failed == old(self).failed,
            final(self).total == old(self).total,
    {
        self.formatted += 1;
    }

    /// Counts one more file that failed to format.
    pub fn inc_failed(&mut self)
        requires
            old(self).failed < usize::MAX,
        ensures
            final(self).formatted == old(self).formatted,
            final(self).failed == old(self).failed + 1,
            final(self).total == old(self).total,
    {
        self.failed += 1;
    }

    /// Counts one more file considered.
    pub fn inc_total(&mut self)
        requires
            old(self).total < usize::MAX,
        ensures
            final(self).formatted == old(self).formatted,
            final(self).failed == old(self).failed,
            final(self).total == old(self).total + 1,
    {
        self.total += 1;
    }
}

} // verus!

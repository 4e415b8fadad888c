//! Memory bookkeeping of the algorithm executors: the usage last reported
//! and the highest usage reported so far, in bytes.
use vstd::prelude::*;

verus! {

/// Tracks reported memory usage.
#[derive(Debug)]
pub struct MemoryTracker {
    peak_usage: usize,
    current_usage: usize,
}

/// The bookkeeping after a report of `bytes`, from `(current, peak)`: the
/// report becomes the current usage, and the peak rises to it if higher.
pub open spec fn after_report(usage: (usize, usize), bytes: usize) -> (usize, usize) {
    (bytes, if bytes > usage.1 { bytes } else { usage.1 })
}

/// The bookkeeping after a run of reports to a fresh tracker.
pub open spec fn replay(reports: Seq<usize>) -> (usize, usize)
    decreases reports.len(),
{
    if reports.len() == 0 {
        (0, 0)
    } else {
        after_report(replay(reports.drop_last()), reports.last())
    }
}

impl MemoryTracker {
    /// `(current, peak)`: the usage last reported and the highest so far.
    pub closed spec fn spec_usage(&self) -> (usize, usize) {
        (self.current_usage, self.peak_usage)
    }

    /// A tracker with nothing reported.
    pub fn new() -> (r: Self)
        ensures
            r.spec_usage() == replay(Seq::empty()),
    {
        MemoryTracker { peak_usage: 0, current_usage: 0 }
    }

    /// Reports the current usage.
    pub fn track(&mut self, bytes: usize)
        ensures
            final(self).spec_usage() == after_report(old(self).spec_usage(), bytes),
    {
        self.current_usage = bytes;
        if bytes > self.peak_usage {
            self.peak_usage = bytes;
        }
    }

    pub fn peak_usage(&self) -> (r: usize)
        ensures
            r == self.spec_usage().1,
    {
        self.peak_usage
    }

    pub fn current_usage(&self) -> (r: usize)
        ensures
            r == self.spec_usage().0,
    {
        self.current_usage
    }
}

/// After any run of reports to a fresh tracker, the current usage is the
/// last report (zero if none), and the peak is the largest report (zero if
/// none): no report exceeds it, and it is one of them.
pub proof fn law_peak_is_largest_report(reports: Seq<usize>)
    ensures
        replay(reports).0 == (if reports.len() == 0 { 0 } else { reports.last() }),
        forall|i: int| 0 <= i < reports.len() ==> reports[i] <= #[trigger] replay(reports).1,
        reports.len() == 0 ==> replay(reports).1 == 0,
        reports.len() > 0 ==> exists|i: int| 0 <= i < reports.len() && reports[i] == replay(reports).1,
        replay(reports).0 <= replay(reports).1,
    decreases reports.len(),
{
    if reports.len() > 0 {
        let t = reports.drop_last();
        law_peak_is_largest_report(t);
        assert forall|i: int| 0 <= i < reports.len() implies reports[i] <= #[trigger] replay(reports).1 by {
            if i < t.len() {
                assert(reports[i] == t[i]);
            }
        }
        if reports.last() > replay(t).1 {
            assert(reports[reports.len() - 1] == replay(reports).1);
        } else if t.len() > 0 {
            let i = choose|i: int| 0 <= i < t.len() && t[i] == replay(t).1;
            assert(reports[i] == t[i]);
        } else {
            assert(reports[0] == 0);
        }
    }
}

} // verus!

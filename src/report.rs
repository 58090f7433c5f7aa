use vstd::prelude::*;

verus! {

/// Work counters of one intersection query: how many boxes and how many
/// triangles were tested.
#[derive(Debug, Default, Clone, Copy, PartialEq, Eq, Structural)]
pub struct CollisionReport {
    pub triangle_tests: u64,
    pub aabb_tests: u64,
}

/// `a + b`, or the largest `u64` when the sum does not fit.
pub open spec fn saturating_sum(a: u64, b: u64) -> u64 {
    if a + b > u64::MAX { u64::MAX } else { (a + b) as u64 }
}

/// The counter-wise saturating sum of two reports.
pub open spec fn report_sum(a: CollisionReport, b: CollisionReport) -> CollisionReport {
    CollisionReport {
        triangle_tests: saturating_sum(a.triangle_tests, b.triangle_tests),
        aabb_tests: saturating_sum(a.aabb_tests, b.aabb_tests),
    }
}

/// Work counters summed over a whole render.
#[derive(Debug, Default, Clone, Copy, PartialEq, Eq, Structural)]
pub struct RenderReport {
    pub aabb_tests: u64,
    pub triangle_tests: u64,
}

impl CollisionReport {
    /// A report with both counters at zero.
    pub fn empty() -> (r: CollisionReport)
        ensures
            r.triangle_tests == 0,
            r.aabb_tests == 0,
    {
        CollisionReport { triangle_tests: 0, aabb_tests: 0 }
    }

    /// Counter-wise sum of two reports, each counter saturating at its
    /// largest value.
    pub fn combine(&self, other: &CollisionReport) -> (r: CollisionReport)
        ensures
            r == report_sum(*self, *other),
    {
        CollisionReport {
            triangle_tests: self.triangle_tests.saturating_add(other.triangle_tests),
            aabb_tests: self.aabb_tests.saturating_add(other.aabb_tests),
        }
    }
}

impl RenderReport {
    /// A report with both counters at zero.
    pub fn empty() -> (r: RenderReport)
        ensures
            r.triangle_tests == 0,
            r.aabb_tests == 0,
    {
        RenderReport { aabb_tests: 0, triangle_tests: 0 }
    }

    /// Adds the counters of one traced sample to the running totals.
    pub fn accumulate(&mut self, sample: &CollisionReport)
        requires
            old(self).triangle_tests + sample.triangle_tests <= u64::MAX,
            old(self).aabb_tests + sample.aabb_tests <= u64::MAX,
        ensures
            final(self).triangle_tests == old(self).triangle_tests + sample.triangle_tests,
            final(self).aabb_tests == old(self).aabb_tests + sample.aabb_tests,
    {
        self.triangle_tests = self.triangle_tests + sample.triangle_tests;
        self.aabb_tests = self.aabb_tests + sample.aabb_tests;
    }
}

} // verus!

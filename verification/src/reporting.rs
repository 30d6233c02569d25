use vstd::prelude::*;

verus! {

/// External sink for progress updates: implementers receive the overall
/// percentage, an integer between 0 and 100, after every measurable chunk
/// of work. Reporting is synchronous and optional.
pub trait ReportProgress {
    fn report(&mut self, percentage: u64);
}

/// Share of `n_processed` out of `total`, as a whole percentage.
pub open spec fn spec_percentage(n_processed: int, total: int) -> int {
    n_processed * 100 / total
}

/// Whole percentage of work done: `n_processed * 100 / total`, which is
/// 100 exactly when all of it is done.
pub fn calc_percentage(n_processed: usize, total: usize) -> (r: u64)
    requires
        1 <= total,
        n_processed <= total,
    ensures
        r == spec_percentage(n_processed as int, total as int),
        r <= 100,
        n_processed == total ==> r == 100,
{
    let n = n_processed as u128;
    let t = total as u128;
    proof {
        let ni = n as int;
        let ti = t as int;
        assert(ni * 100 <= ti * 100) by (nonlinear_arith)
            requires
                ni <= ti,
        ;
        assert(ti * 100 / ti == 100) by (nonlinear_arith)
            requires
                ti >= 1,
        ;
        assert(ni * 100 / ti <= ti * 100 / ti) by (nonlinear_arith)
            requires
                ni * 100 <= ti * 100 && ti >= 1,
        ;
        assert(ni * 100 <= u128::MAX) by (nonlinear_arith)
            requires
                0 <= ni <= u64::MAX,
        ;
        assert(ni * 100 / ti >= 0) by (nonlinear_arith)
            requires
                ni >= 0 && ti >= 1,
        ;
    }
    (n * 100 / t) as u64
}

} // verus!

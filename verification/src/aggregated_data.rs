use crate::value_combination::ValueCombination;
use vstd::prelude::*;

verus! {

/// The counts are keyed by pairwise distinct combinations.
pub open spec fn distinct_combo_keys(m: Seq<(ValueCombination, usize)>) -> bool {
    forall|i: int, j: int| #![trigger m[i], m[j]] 0 <= i < j < m.len() ==> m[i].0@ != m[j].0@
}

/// Count recorded for the combination `c`, or zero when `c` has no entry.
pub open spec fn combo_count(m: Seq<(ValueCombination, usize)>, c: Seq<(int, Seq<char>)>) -> int {
    if exists|k: int| 0 <= k < m.len() && (#[trigger] m[k]).0@ == c {
        m[choose|k: int| 0 <= k < m.len() && (#[trigger] m[k]).0@ == c].1 as int
    } else {
        0
    }
}

/// With distinct keys, the entry at an index carries exactly the count
/// that `combo_count` gives for its combination.
pub proof fn lemma_combo_count_at(m: Seq<(ValueCombination, usize)>, k: int)
    requires
        distinct_combo_keys(m),
        0 <= k < m.len(),
    ensures
        combo_count(m, m[k].0@) == m[k].1,
{
    let w = choose|w: int| 0 <= w < m.len() && (#[trigger] m[w]).0@ == m[k].0@;
    if w != k {
        assert(m[w].0@ != m[k].0@);
    }
}

/// Aggregate statistics of a dataset: how many records carry each
/// attribute combination of length one up to the reporting length.
pub struct AggregatedData {
    /// Occurrence count per canonical attribute combination.
    pub aggregates_count: Vec<(ValueCombination, usize)>,
    /// Combination-length ceiling the counts were computed for.
    pub reporting_length: usize,
}

impl AggregatedData {
    pub open spec fn wf(&self) -> bool {
        &&& distinct_combo_keys(self.aggregates_count@)
        &&& forall|k: int|
            0 <= k < self.aggregates_count@.len() ==> {
                &&& (#[trigger] self.aggregates_count@[k]).0.wf()
                &&& 1 <= self.aggregates_count@[k].0@.len() <= self.reporting_length
                &&& self.aggregates_count@[k].1 <= isize::MAX
            }
    }

    /// Count recorded for the given combination; zero when it was never
    /// seen (or was withheld from the aggregate data).
    pub fn count_for(&self, c: &ValueCombination) -> (r: usize)
        requires
            self.wf(),
        ensures
            r == combo_count(self.aggregates_count@, c@),
    {
        let m = &self.aggregates_count;
        let mut i: usize = 0;
        while i < m.len()
            invariant
                0 <= i <= m@.len(),
                m@ == self.aggregates_count@,
                distinct_combo_keys(m@),
                forall|k: int| 0 <= k < i ==> (#[trigger] m@[k]).0@ != c@,
            decreases m@.len() - i,
        {
            if m[i].0.eq_combination(c) {
                proof {
                    lemma_combo_count_at(m@, i as int);
                }
                return m[i].1;
            }
            i += 1;
        }
        proof {
            assert(forall|k: int| 0 <= k < m@.len() ==> (#[trigger] m@[k]).0@ != c@);
        }
        0
    }
}

/// Everything the consolidation step reads: the (possibly privacy
/// adjusted) aggregate counts, consumed as an opaque, read-only bundle.
pub struct ConsolidateParameters {
    pub aggregated_data: AggregatedData,
}

impl ConsolidateParameters {
    pub open spec fn wf(&self) -> bool {
        self.aggregated_data.wf()
    }

    pub fn new(aggregated_data: AggregatedData) -> (r: ConsolidateParameters)
        ensures
            r.aggregated_data == aggregated_data,
    {
        ConsolidateParameters { aggregated_data }
    }
}

} // verus!

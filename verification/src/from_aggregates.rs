use crate::aggregated_data::{distinct_combo_keys, ConsolidateParameters};
use crate::context::{
    cand_weight, candidates_from, eligible_candidate, sampled_attr_ok, ConsolidateContext,
    SynthesizerContext,
};
use crate::data_block::{protected_count, DataBlock, DataBlockValue};
use crate::reporting::{calc_percentage, spec_percentage, ReportProgress};
use crate::typedefs::{
    attr_count, decrement_available, distinct_attr_keys, get_attr_count, increment_attr_count,
    not_allowed_contains, AttributeCountMap, AvailableAttrsMap, NotAllowedAttrSet,
    SynthesizedRecord, SynthesizedRecords,
};
use crate::value_combination::seq_has_column;
use crate::value_combination::ValueCombination;
use vstd::prelude::*;

verus! {

/// The single-attribute entries of the aggregate counts, in aggregate
/// order: each length-one combination as its attribute and count.
pub open spec fn single_attr_views(entries: Seq<(ValueCombination, usize)>) -> Seq<
    ((int, Seq<char>), int),
>
    decreases entries.len(),
{
    if entries.len() == 0 {
        Seq::empty()
    } else {
        let rest = single_attr_views(entries.drop_first());
        if entries[0].0@.len() == 1 {
            seq![(entries[0].0@[0], entries[0].1 as int)] + rest
        } else {
            rest
        }
    }
}

/// How many of the given records contain attribute `a` (each record holds
/// an attribute at most once).
pub open spec fn occurrence_count(recs: Seq<SynthesizedRecord>, a: (int, Seq<char>)) -> int
    decreases recs.len(),
{
    if recs.len() == 0 {
        0
    } else {
        occurrence_count(recs.drop_last(), a) + (if recs.last()@.contains(a) {
            1int
        } else {
            0int
        })
    }
}

pub proof fn lemma_occurrence_push(recs: Seq<SynthesizedRecord>, rec: SynthesizedRecord)
    ensures
        forall|a: (int, Seq<char>)| #[trigger] occurrence_count(recs.push(rec), a)
            == occurrence_count(recs, a) + (if rec@.contains(a) { 1int } else { 0int }),
{
    assert(recs.push(rec).drop_last() =~= recs);
    assert(recs.push(rec).last() == rec);
    assert forall|a: (int, Seq<char>)| #[trigger] occurrence_count(recs.push(rec), a)
        == occurrence_count(recs, a) + (if rec@.contains(a) { 1int } else { 0int }) by {
        assert(recs.push(rec).len() == recs.len() + 1);
    }
}

/// The smaller of two counts.
pub open spec fn min_int(a: int, b: int) -> int {
    if a <= b {
        a
    } else {
        b
    }
}

/// The protected count is never negative.
pub proof fn lemma_protected_nonneg(c: int, r: int)
    requires
        c >= 0,
        r >= 1,
    ensures
        protected_count(c, r) >= 0,
{
    assert((c / r) * r >= 0) by (nonlinear_arith)
        requires
            c >= 0 && r >= 1,
    ;
}

/// Budget attribute `a` still has once the given records stand: its
/// single-attribute count less its occurrences in them.
pub open spec fn remaining_single_budget(
    single: Seq<(DataBlockValue, usize)>,
    recs: Seq<SynthesizedRecord>,
    a: (int, Seq<char>),
) -> int {
    attr_count(single, a, 0usize) - occurrence_count(recs, a)
}

/// The record cannot be grown any further: no attribute is a
/// positive-weight candidate for it whose column is still free and whose
/// budget, after the records built so far (the record itself included),
/// is still positive.
pub open spec fn saturated_record(
    agg: Seq<(ValueCombination, usize)>,
    single: Seq<(DataBlockValue, usize)>,
    recs: Seq<SynthesizedRecord>,
    rec: SynthesizedRecord,
) -> bool {
    forall|a: (int, Seq<char>)| #![trigger cand_weight(agg, rec@, a)]
        !({
            &&& candidates_from(agg, agg, rec@).contains((a, cand_weight(agg, rec@, a)))
            &&& cand_weight(agg, rec@, a) > 0
            &&& remaining_single_budget(single, recs, a) > 0
            &&& !seq_has_column(rec@, a.0)
        })
}

/// One full synthesis outcome: `mid` holds the consolidation's records —
/// the protected number of them, each saturated against the budget left
/// by its predecessors — and the result is their suppression: per-record
/// subsets whose occurrence counts are clamped to the protected
/// single-attribute counts.
pub open spec fn synthesis_phases_ok(
    agg: Seq<(ValueCombination, usize)>,
    single: Seq<(DataBlockValue, usize)>,
    resolution: int,
    target: int,
    mid: Seq<SynthesizedRecord>,
    out: Seq<SynthesizedRecord>,
) -> bool {
    &&& mid.len() == target
    &&& forall|k: int| 0 <= k < mid.len() ==> (#[trigger] mid[k]).wf()
    &&& forall|k: int|
        0 <= k < mid.len() ==> saturated_record(
            agg,
            single,
            mid.subrange(0, k + 1),
            #[trigger] mid[k],
        )
    &&& out.len() == mid.len()
    &&& forall|i: int|
        0 <= i < out.len() ==> (#[trigger] out[i]).wf() && out[i]@.len() <= mid[i]@.len()
    &&& forall|i: int, x: (int, Seq<char>)|
        0 <= i < out.len() && (#[trigger] out[i]@.contains(x)) ==> mid[i]@.contains(x)
    &&& forall|a: (int, Seq<char>)|
        #[trigger] occurrence_count(out, a) == min_int(
            protected_count(attr_count(single, a, 0usize) as int, resolution),
            occurrence_count(mid, a),
        )
}

/// Sum of the nonnegative part of all remaining budgets.
pub open spec fn avail_total(m: Seq<(DataBlockValue, isize)>) -> int
    decreases m.len(),
{
    if m.len() == 0 {
        0
    } else {
        avail_total(m.drop_last()) + (if m.last().1 >= 0 {
            m.last().1 as int
        } else {
            0int
        })
    }
}

pub proof fn lemma_avail_total_update(m: Seq<(DataBlockValue, isize)>, k: int, c: isize)
    requires
        0 <= k < m.len(),
    ensures
        avail_total(m.update(k, (m[k].0, c))) == avail_total(m) - (if m[k].1 >= 0 {
            m[k].1 as int
        } else {
            0int
        }) + (if c >= 0 {
            c as int
        } else {
            0int
        }),
    decreases m.len(),
{
    let m2 = m.update(k, (m[k].0, c));
    if k == m.len() - 1 {
        assert(m2.drop_last() =~= m.drop_last());
        assert(m2.last() == (m[k].0, c));
    } else {
        assert(m2.drop_last() =~= m.drop_last().update(k, (m[k].0, c)));
        assert(m.drop_last()[k] == m[k]);
        lemma_avail_total_update(m.drop_last(), k, c);
        assert(m2.last() == m.last());
    }
}

/// Two count maps with matching keys and counts give every attribute
/// the same count.
pub proof fn lemma_iso_counts(
    mu: Seq<(DataBlockValue, usize)>,
    mi: Seq<(DataBlockValue, isize)>,
    a: (int, Seq<char>),
)
    requires
        distinct_attr_keys(mu),
        distinct_attr_keys(mi),
        mu.len() == mi.len(),
        forall|k: int| 0 <= k < mu.len()
            ==> (#[trigger] mu[k]).0@ == mi[k].0@ && mu[k].1 as int == mi[k].1 as int,
    ensures
        attr_count(mu, a, 0usize) as int == attr_count(mi, a, 0isize) as int,
{
    if exists|k: int| 0 <= k < mu.len() && (#[trigger] mu[k]).0@ == a {
        let k = choose|k: int| 0 <= k < mu.len() && (#[trigger] mu[k]).0@ == a;
        crate::typedefs::lemma_attr_count_at(mu, k, 0usize);
        assert(mi[k].0@ == a);
        crate::typedefs::lemma_attr_count_at(mi, k, 0isize);
    } else {
        assert forall|k: int| 0 <= k < mi.len() implies (#[trigger] mi[k]).0@ != a by {
            assert(mu[k].0@ == mi[k].0@);
        }
    }
}

/// Everything the synthesis from aggregate counts needs: the data block,
/// the reporting resolution and cache bound, the consolidation bundle,
/// the cached single-attribute counts, and the two phase percentages.
pub struct FromAggregatesSynthesizer {
    /// The sensitive data the synthesis mirrors.
    pub data_block: DataBlock,
    /// Reporting resolution used for the synthesis.
    pub resolution: usize,
    /// Bound on the sampling cache.
    pub cache_max_size: usize,
    /// Aggregate counts driving consolidation, read-only for the run.
    pub consolidate_parameters: ConsolidateParameters,
    /// Single-attribute counts taken from the aggregates.
    pub single_attr_counts: AttributeCountMap,
    /// Whole percentage of the consolidation step already done.
    pub consolidate_percentage: u64,
    /// Whole percentage of the suppression step already done.
    pub suppress_percentage: u64,
}

/// Everything but the two phase percentages is the same.
pub open spec fn only_progress_changed(
    a: FromAggregatesSynthesizer,
    b: FromAggregatesSynthesizer,
) -> bool {
    &&& b.data_block == a.data_block
    &&& b.resolution == a.resolution
    &&& b.cache_max_size == a.cache_max_size
    &&& b.consolidate_parameters == a.consolidate_parameters
    &&& b.single_attr_counts == a.single_attr_counts
}

impl FromAggregatesSynthesizer {
    pub open spec fn wf(&self) -> bool {
        &&& self.data_block.wf()
        &&& self.resolution >= 1
        &&& self.consolidate_parameters.wf()
        &&& distinct_attr_keys(self.single_attr_counts@)
        &&& self.single_attr_counts@.len() == single_attr_views(
            self.consolidate_parameters.aggregated_data.aggregates_count@,
        ).len()
        &&& forall|k: int|
            0 <= k < self.single_attr_counts@.len()
                ==> ((#[trigger] self.single_attr_counts@[k]).0@, self.single_attr_counts@[k].1
                as int) == single_attr_views(
                self.consolidate_parameters.aggregated_data.aggregates_count@,
            )[k]
        &&& self.consolidate_percentage <= 100
        &&& self.suppress_percentage <= 100
    }

    /// Builds a synthesizer: the single-attribute counts are read off the
    /// length-one aggregate entries once, and both phase percentages
    /// start at zero.
    pub fn new(
        data_block: DataBlock,
        resolution: usize,
        cache_max_size: usize,
        consolidate_parameters: ConsolidateParameters,
    ) -> (r: FromAggregatesSynthesizer)
        requires
            data_block.wf(),
            resolution >= 1,
            consolidate_parameters.wf(),
        ensures
            r.wf(),
            r.data_block == data_block,
            r.resolution == resolution,
            r.cache_max_size == cache_max_size,
            r.consolidate_parameters == consolidate_parameters,
            r.consolidate_percentage == 0,
            r.suppress_percentage == 0,
    {
        let single_attr_counts = collect_single_attr_counts(
            &consolidate_parameters.aggregated_data.aggregates_count,
        );
        FromAggregatesSynthesizer {
            data_block,
            resolution,
            cache_max_size,
            consolidate_parameters,
            single_attr_counts,
            consolidate_percentage: 0,
            suppress_percentage: 0,
        }
    }

    /// The data block being synthesized from.
    pub fn get_data_block(&self) -> (r: &DataBlock)
        ensures
            *r == self.data_block,
    {
        &self.data_block
    }

    /// The cached single-attribute counts from the aggregate data.
    pub fn get_single_attr_counts(&self) -> (r: &AttributeCountMap)
        ensures
            *r == self.single_attr_counts,
    {
        &self.single_attr_counts
    }

    /// The reporting resolution used for the synthesis.
    pub fn get_resolution(&self) -> (r: usize)
        ensures
            r == self.resolution,
    {
        self.resolution
    }

    /// The overall progress: consolidation weighs seventy percent of the
    /// run and suppression the remaining thirty.
    pub fn calc_overall_progress(&self) -> (r: u64)
        requires
            self.consolidate_percentage <= 100,
            self.suppress_percentage <= 100,
        ensures
            r == (70 * self.consolidate_percentage + 30 * self.suppress_percentage) as int
                / 100,
            self.consolidate_percentage == 100 && self.suppress_percentage == 100 ==> r == 100,
    {
        (70 * self.consolidate_percentage + 30 * self.suppress_percentage) / 100
    }

    /// Fresh per-attribute budget for consolidation, seeded from the
    /// single-attribute aggregate counts.
    pub fn get_not_used_attrs(&self, _synthesized_records: &SynthesizedRecords) -> (r:
        AvailableAttrsMap)
        requires
            self.wf(),
        ensures
            distinct_attr_keys(r@),
            r@.len() == single_attr_views(
                self.consolidate_parameters.aggregated_data.aggregates_count@,
            ).len(),
            forall|k: int|
                0 <= k < r@.len() ==> ((#[trigger] r@[k]).0@, r@[k].1 as int)
                    == single_attr_views(
                    self.consolidate_parameters.aggregated_data.aggregates_count@,
                )[k],
            forall|k: int| 0 <= k < r@.len() ==> (#[trigger] r@[k]).1 >= 0,
    {
        let m = &self.consolidate_parameters.aggregated_data.aggregates_count;
        let ghost views = single_attr_views(m@);
        let mut r: AvailableAttrsMap = Vec::new();
        let mut i: usize = 0;
        proof {
            assert(m@.skip(0) =~= m@);
        }
        while i < m.len()
            invariant
                0 <= i <= m@.len(),
                m@ == self.consolidate_parameters.aggregated_data.aggregates_count@,
                self.wf(),
                views == single_attr_views(m@),
                views =~= cand_pair_views(r@) + single_attr_views(m@.skip(i as int)),
                forall|k: int|
                    0 <= k < r@.len() ==> ((#[trigger] r@[k]).0@, r@[k].1 as int) == views[k],
                forall|k: int| 0 <= k < r@.len() ==> (#[trigger] r@[k]).1 >= 0,
                forall|k: int| #![trigger r@[k]]
                    0 <= k < r@.len() ==> exists|j: int|
                        0 <= j < i && (#[trigger] m@[j]).0@ == seq![r@[k].0@],
                distinct_attr_keys(r@),
            decreases m@.len() - i,
        {
            proof {
                assert(m@.skip(i as int).drop_first() =~= m@.skip(i + 1));
                assert(m@.skip(i as int)[0] == m@[i as int]);
            }
            let ghost pre = r@;
            if m[i].0.len() == 1 {
                let attr = &m[i].0.attrs[0];
                proof {
                    assert(attr@ == m@[i as int].0@[0]);
                    assert(m@[i as int].0@ =~= seq![attr@]);
                    assert(forall|k: int|
                        0 <= k < self.consolidate_parameters.aggregated_data.aggregates_count@.len()
                            ==> (#[trigger] self.consolidate_parameters.aggregated_data.aggregates_count@[k]).1
                            <= isize::MAX);
                }
                let count = m[i].1;
                r.push((attr.clone_value(), count as isize));
                proof {
                    assert(cand_pair_views(r@) =~= cand_pair_views(pre) + seq![
                        (attr@, count as int),
                    ]);
                    assert(single_attr_views(m@.skip(i as int)) == seq![(attr@, count as int)]
                        + single_attr_views(m@.skip(i + 1)));
                    assert(views =~= cand_pair_views(r@) + single_attr_views(m@.skip(i + 1)));
                    assert forall|k1: int, k2: int| #![trigger r@[k1], r@[k2]]
                        0 <= k1 < k2 < r@.len() implies r@[k1].0@ != r@[k2].0@ by {
                        if k2 == r@.len() - 1 {
                            let j = choose|j: int|
                                0 <= j < i && (#[trigger] m@[j]).0@ == seq![pre[k1].0@];
                            if r@[k1].0@ == attr@ {
                                assert(m@[j].0@ =~= m@[i as int].0@);
                            }
                        }
                    }
                    assert forall|k: int| #![trigger r@[k]] 0 <= k < r@.len() implies exists|
                        j: int,
                    |
                        0 <= j < i + 1 && (#[trigger] m@[j]).0@ == seq![r@[k].0@] by {
                        if k < pre.len() {
                            let j = choose|j: int|
                                0 <= j < i && (#[trigger] m@[j]).0@ == seq![pre[k].0@];
                            assert(m@[j].0@ == seq![r@[k].0@]);
                        } else {
                            assert(m@[i as int].0@ == seq![r@[k].0@]);
                        }
                    }
                }
            } else {
                proof {
                    assert(single_attr_views(m@.skip(i as int)) == single_attr_views(
                        m@.skip(i + 1),
                    ));
                }
            }
            i += 1;
        }
        proof {
            assert(m@.skip(m@.len() as int) =~= Seq::<(ValueCombination, usize)>::empty());
            assert(views =~= cand_pair_views(r@));
        }
        r
    }

    /// Delegates the next-attribute draw to the shared context, handing
    /// it this synthesizer's aggregate counts.
    pub fn sample_next_attr(
        &self,
        synthesizer_context: &mut SynthesizerContext,
        consolidate_context: &ConsolidateContext,
        last_processed: &ValueCombination,
        synthesized_record: &SynthesizedRecord,
        not_allowed_attr_set: &NotAllowedAttrSet,
    ) -> (r: Option<DataBlockValue>)
        requires
            self.wf(),
            old(synthesizer_context).cache_wf(
                self.consolidate_parameters.aggregated_data.aggregates_count@,
            ),
            distinct_attr_keys(consolidate_context.available_attrs@),
            last_processed.wf(),
        ensures
            final(synthesizer_context).cache_wf(
                self.consolidate_parameters.aggregated_data.aggregates_count@,
            ),
            final(synthesizer_context).resolution == old(synthesizer_context).resolution,
            final(synthesizer_context).cache_max_size == old(synthesizer_context).cache_max_size,
            final(synthesizer_context).data_block == old(synthesizer_context).data_block,
            sampled_attr_ok(
                self.consolidate_parameters.aggregated_data.aggregates_count@,
                consolidate_context.available_attrs@,
                last_processed@,
                synthesized_record@,
                not_allowed_attr_set@,
                r,
            ),
    {
        synthesizer_context.sample_next_attr_from_aggregates(
            consolidate_context,
            last_processed,
            synthesized_record,
            not_allowed_attr_set,
            &self.consolidate_parameters,
        )
    }

    /// Updates the consolidation percentage and pushes the weighted
    /// overall progress to the reporter, when one is present.
    pub fn update_consolidate_progress<T: ReportProgress>(
        &mut self,
        n_processed: usize,
        total: usize,
        progress_reporter: &mut Option<T>,
    )
        requires
            1 <= total,
            n_processed <= total,
            old(self).suppress_percentage <= 100,
            old(self).consolidate_percentage <= 100,
        ensures
            only_progress_changed(*old(self), *final(self)),
            final(self).suppress_percentage == old(self).suppress_percentage,
            final(self).consolidate_percentage <= 100,
            old(progress_reporter).is_some() ==> final(self).consolidate_percentage
                == spec_percentage(n_processed as int, total as int),
            old(progress_reporter).is_some() && n_processed == total
                ==> final(self).consolidate_percentage == 100,
            old(progress_reporter).is_none() ==> final(self).consolidate_percentage == old(self).consolidate_percentage,
            final(progress_reporter).is_some() == old(progress_reporter).is_some(),
    {
        match progress_reporter {
            Some(reporter) => {
                self.consolidate_percentage = calc_percentage(n_processed, total);
                let overall = self.calc_overall_progress();
                reporter.report(overall);
            },
            None => {},
        }
    }

    /// Updates the suppression percentage and pushes the weighted overall
    /// progress to the reporter, when one is present.
    pub fn update_suppress_progress<T: ReportProgress>(
        &mut self,
        n_processed: usize,
        total: usize,
        progress_reporter: &mut Option<T>,
    )
        requires
            1 <= total,
            n_processed <= total,
            old(self).consolidate_percentage <= 100,
            old(self).suppress_percentage <= 100,
        ensures
            only_progress_changed(*old(self), *final(self)),
            final(self).consolidate_percentage == old(self).consolidate_percentage,
            final(self).suppress_percentage <= 100,
            old(progress_reporter).is_some() ==> final(self).suppress_percentage
                == spec_percentage(n_processed as int, total as int),
            old(progress_reporter).is_some() && n_processed == total
                ==> final(self).suppress_percentage == 100,
            old(progress_reporter).is_none() ==> final(self).suppress_percentage == old(self).suppress_percentage,
            final(progress_reporter).is_some() == old(progress_reporter).is_some(),
    {
        match progress_reporter {
            Some(reporter) => {
                self.suppress_percentage = calc_percentage(n_processed, total);
                let overall = self.calc_overall_progress();
                reporter.report(overall);
            },
            None => {},
        }
    }

    /// How many occurrences of attribute `a` may be released: its
    /// single-attribute count clamped down to a multiple of the
    /// resolution.
    fn allowed_count(&self, a: &DataBlockValue) -> (r: usize)
        requires
            self.wf(),
        ensures
            r as int == protected_count(
                attr_count(self.single_attr_counts@, a@, 0usize) as int,
                self.resolution as int,
            ),
            r <= attr_count(self.single_attr_counts@, a@, 0usize),
    {
        let c = get_attr_count(&self.single_attr_counts, a);
        let q = c / self.resolution;
        proof {
            vstd::arithmetic::div_mod::lemma_fundamental_div_mod(c as int, self.resolution as int);
            vstd::arithmetic::div_mod::lemma_mod_bound(c as int, self.resolution as int);
            vstd::arithmetic::mul::lemma_mul_is_commutative(q as int, self.resolution as int);
            assert((q as int) * (self.resolution as int) <= c as int);
        }
        q * self.resolution
    }

    /// Builds the synthetic records: one per protected target count, each
    /// grown by sampling eligible attributes until none remains, spending
    /// one unit of the drawn attribute's budget per placement. No record
    /// ever holds two attributes of one column, and no attribute is
    /// placed more often than its single-attribute count.
    pub fn consolidate<T: ReportProgress>(
        &mut self,
        synthesized_records: &mut SynthesizedRecords,
        progress_reporter: &mut Option<T>,
        synthesizer_context: &mut SynthesizerContext,
    )
        requires
            old(self).wf(),
            old(synthesizer_context).cache_wf(
                old(self).consolidate_parameters.aggregated_data.aggregates_count@,
            ),
        ensures
            final(self).wf(),
            only_progress_changed(*old(self), *final(self)),
            final(self).suppress_percentage == old(self).suppress_percentage,
            final(synthesizer_context).cache_wf(
                old(self).consolidate_parameters.aggregated_data.aggregates_count@,
            ),
            final(synthesized_records)@.len() == old(synthesized_records)@.len() + old(self).data_block.spec_protected_number_of_records(old(self).resolution as int),
            forall|i: int|
                0 <= i < old(synthesized_records)@.len() ==> #[trigger] final(synthesized_records)@[i] == old(synthesized_records)@[i],
            forall|i: int|
                old(synthesized_records)@.len() <= i < final(synthesized_records)@.len()
                    ==> (#[trigger] final(synthesized_records)@[i]).wf(),
            forall|i: int|
                old(synthesized_records)@.len() <= i < final(synthesized_records)@.len()
                    ==> saturated_record(
                    old(self).consolidate_parameters.aggregated_data.aggregates_count@,
                    old(self).single_attr_counts@,
                    final(synthesized_records)@.subrange(
                        old(synthesized_records)@.len() as int,
                        i + 1,
                    ),
                    #[trigger] final(synthesized_records)@[i],
                ),
            forall|a: (int, Seq<char>)|
                #[trigger] occurrence_count(
                    final(synthesized_records)@.skip(old(synthesized_records)@.len() as int),
                    a,
                ) <= attr_count(old(self).single_attr_counts@, a, 0usize),
            old(progress_reporter).is_some() && old(self).data_block.spec_protected_number_of_records(old(self).resolution as int) > 0
                ==> final(self).consolidate_percentage == 100,
            old(progress_reporter).is_none() || old(self).data_block.spec_protected_number_of_records(old(self).resolution as int) == 0
                ==> final(self).consolidate_percentage == old(self).consolidate_percentage,
            final(progress_reporter).is_some() == old(progress_reporter).is_some(),
    {
        let ghost agg = self.consolidate_parameters.aggregated_data.aggregates_count@;
        let ghost base = synthesized_records@.len() as int;
        let n_target = self.data_block.protected_number_of_records(self.resolution);
        let mut consolidate_context = ConsolidateContext {
            available_attrs: self.get_not_used_attrs(synthesized_records),
        };
        let ghost avail0 = consolidate_context.available_attrs@;
        proof {
            assert(synthesized_records@.skip(base) =~= Seq::<SynthesizedRecord>::empty());
        }
        let mut k: usize = 0;
        while k < n_target
            invariant
                0 <= k <= n_target,
                self.wf(),
                only_progress_changed(*old(self), *self),
                self.suppress_percentage == old(self).suppress_percentage,
                agg == self.consolidate_parameters.aggregated_data.aggregates_count@,
                synthesizer_context.cache_wf(agg),
                distinct_attr_keys(consolidate_context.available_attrs@),
                forall|j: int|
                    0 <= j < consolidate_context.available_attrs@.len()
                        ==> (#[trigger] consolidate_context.available_attrs@[j]).1 >= 0,
                synthesized_records@.len() == base + k,
                base == old(synthesized_records)@.len() as int,
                distinct_attr_keys(avail0),
                avail0.len() == old(self).single_attr_counts@.len(),
                forall|j: int|
                    0 <= j < avail0.len() ==> (#[trigger] old(self).single_attr_counts@[j]).0@
                        == avail0[j].0@ && old(self).single_attr_counts@[j].1 as int
                        == avail0[j].1 as int,
                forall|i: int|
                    0 <= i < base ==> #[trigger] synthesized_records@[i] == old(synthesized_records)@[i],
                forall|i: int|
                    base <= i < synthesized_records@.len() ==> (#[trigger] synthesized_records@[i]).wf(),
                forall|i: int|
                    base <= i < synthesized_records@.len() ==> saturated_record(
                        agg,
                        old(self).single_attr_counts@,
                        synthesized_records@.subrange(base, i + 1),
                        #[trigger] synthesized_records@[i],
                    ),
                forall|a: (int, Seq<char>)|
                    #[trigger] occurrence_count(synthesized_records@.skip(base), a) + attr_count(
                        consolidate_context.available_attrs@,
                        a,
                        0isize,
                    ) == attr_count(avail0, a, 0isize),
                old(progress_reporter).is_some() && k > 0 ==> self.consolidate_percentage
                    == spec_percentage(k as int, n_target as int),
                old(progress_reporter).is_some() && k > 0 && k == n_target
                    ==> self.consolidate_percentage == 100,
                old(progress_reporter).is_none() || k == 0 ==> self.consolidate_percentage
                    == old(self).consolidate_percentage,
                progress_reporter.is_some() == old(progress_reporter).is_some(),
                n_target as int == old(self).data_block.spec_protected_number_of_records(
                    old(self).resolution as int,
                ),
            decreases n_target - k,
        {
            let mut record = ValueCombination::empty();
            let mut not_allowed_attr_set: NotAllowedAttrSet = Vec::new();
            let mut done = false;
            proof {
                lemma_avail_total_nonneg(consolidate_context.available_attrs@);
            }
            while !done
                invariant
                    self.wf(),
                    agg == self.consolidate_parameters.aggregated_data.aggregates_count@,
                    synthesizer_context.cache_wf(agg),
                    record.wf(),
                    distinct_attr_keys(consolidate_context.available_attrs@),
                    forall|j: int|
                        0 <= j < consolidate_context.available_attrs@.len()
                            ==> (#[trigger] consolidate_context.available_attrs@[j]).1 >= 0,
                    avail_total(consolidate_context.available_attrs@) >= 0,
                    forall|a: (int, Seq<char>)|
                        #[trigger] occurrence_count(synthesized_records@.skip(base), a) + (
                        if record@.contains(a) {
                            1int
                        } else {
                            0int
                        }) + attr_count(consolidate_context.available_attrs@, a, 0isize)
                            == attr_count(avail0, a, 0isize),
                    forall|l: int|
                        0 <= l < not_allowed_attr_set@.len() ==> record@.contains(
                            (#[trigger] not_allowed_attr_set@[l])@,
                        ),
                    done ==> forall|a: (int, Seq<char>)|
                        !#[trigger] eligible_candidate(
                            agg,
                            consolidate_context.available_attrs@,
                            record@,
                            record@,
                            not_allowed_attr_set@,
                            a,
                        ),
                decreases 2 * avail_total(consolidate_context.available_attrs@) + (if done {
                    0int
                } else {
                    1int
                }),
            {
                let picked = self.sample_next_attr(
                    synthesizer_context,
                    &consolidate_context,
                    &record,
                    &record,
                    &not_allowed_attr_set,
                );
                match picked {
                    Some(value) => {
                        let ghost pre_avail = consolidate_context.available_attrs@;
                        proof {
                            if record@.contains(value@) {
                                let i = choose|i: int|
                                    0 <= i < record@.len() && record@[i] == value@;
                                assert(record@[i].0 == value@.0);
                                assert(crate::value_combination::seq_has_column(
                                    record@,
                                    value@.0,
                                ));
                            }
                        }
                        decrement_available(&mut consolidate_context.available_attrs, &value);
                        proof {
                            let m2 = consolidate_context.available_attrs@;
                            assert forall|j: int|
                                0 <= j < m2.len() implies (#[trigger] m2[j]).1 >= 0 by {
                                crate::typedefs::lemma_attr_count_at(pre_avail, j, 0isize);
                                assert(m2[j].1 == attr_count(pre_avail, m2[j].0@, 0isize) - (
                                if m2[j].0@ == value@ {
                                    1int
                                } else {
                                    0int
                                }));
                            }
                            let ku = choose|ku: int|
                                0 <= ku < pre_avail.len() && (#[trigger] pre_avail[ku]).0@
                                    == value@ && m2 == pre_avail.update(
                                    ku,
                                    (pre_avail[ku].0, (pre_avail[ku].1 - 1) as isize),
                                );
                            crate::typedefs::lemma_attr_count_at(pre_avail, ku, 0isize);
                            lemma_avail_total_update(
                                pre_avail,
                                ku,
                                (pre_avail[ku].1 - 1) as isize,
                            );
                            lemma_avail_total_nonneg(m2);
                        }
                        let ghost rec0 = record@;
                        record = record.extended_with(&value);
                        not_allowed_attr_set.push(value);
                        proof {
                            assert forall|l: int|
                                0 <= l < not_allowed_attr_set@.len() implies record@.contains(
                                (#[trigger] not_allowed_attr_set@[l])@,
                            ) by {
                                if l < not_allowed_attr_set@.len() - 1 {
                                    assert(rec0.contains(not_allowed_attr_set@[l]@));
                                }
                            }
                        }
                    },
                    None => {
                        done = true;
                    },
                }
            }
            let ghost pre_records = synthesized_records@;
            synthesized_records.push(record);
            proof {
                lemma_occurrence_push(pre_records.skip(base), record);
                assert(pre_records.skip(base).push(record) =~= synthesized_records@.skip(base));
                let new_len = synthesized_records@.len() as int;
                assert(synthesized_records@[new_len - 1] == record);
                // the finished record is saturated: were some attribute still
                // placeable under the remaining budget, the sampler could not
                // have answered that none is eligible
                assert forall|i2: int|
                    base <= i2 < new_len implies saturated_record(
                    agg,
                    old(self).single_attr_counts@,
                    synthesized_records@.subrange(base, i2 + 1),
                    #[trigger] synthesized_records@[i2],
                ) by {
                    if i2 < new_len - 1 {
                        assert(synthesized_records@.subrange(base, i2 + 1)
                            =~= pre_records.subrange(base, i2 + 1));
                        assert(synthesized_records@[i2] == pre_records[i2]);
                    } else {
                        let prefix = synthesized_records@.subrange(base, i2 + 1);
                        assert(prefix =~= synthesized_records@.skip(base));
                        assert forall|a: (int, Seq<char>)|
                            #![trigger cand_weight(agg, record@, a)]
                            !({
                                &&& candidates_from(agg, agg, record@).contains(
                                    (a, cand_weight(agg, record@, a)),
                                )
                                &&& cand_weight(agg, record@, a) > 0
                                &&& remaining_single_budget(
                                    old(self).single_attr_counts@,
                                    prefix,
                                    a,
                                ) > 0
                                &&& !seq_has_column(record@, a.0)
                            }) by {
                            if candidates_from(agg, agg, record@).contains(
                                (a, cand_weight(agg, record@, a)),
                            ) && cand_weight(agg, record@, a) > 0 && remaining_single_budget(
                                old(self).single_attr_counts@,
                                prefix,
                                a,
                            ) > 0 && !seq_has_column(record@, a.0) {
                                lemma_iso_counts(old(self).single_attr_counts@, avail0, a);
                                if record@.contains(a) {
                                    let xi = choose|xi: int|
                                        0 <= xi < record@.len() && record@[xi] == a;
                                    assert(record@[xi].0 == a.0);
                                    assert(seq_has_column(record@, a.0));
                                }
                                assert(occurrence_count(prefix, a) == occurrence_count(
                                    pre_records.skip(base),
                                    a,
                                ));
                                if not_allowed_contains(not_allowed_attr_set@, a) {
                                    let l = choose|l: int|
                                        0 <= l < not_allowed_attr_set@.len() && (
                                        #[trigger] not_allowed_attr_set@[l])@ == a;
                                    assert(record@.contains(a));
                                }
                                assert(attr_count(
                                    consolidate_context.available_attrs@,
                                    a,
                                    0isize,
                                ) > 0);
                                assert(eligible_candidate(
                                    agg,
                                    consolidate_context.available_attrs@,
                                    record@,
                                    record@,
                                    not_allowed_attr_set@,
                                    a,
                                ));
                                assert(false);
                            }
                        }
                        assert(saturated_record(
                            agg,
                            old(self).single_attr_counts@,
                            prefix,
                            synthesized_records@[i2],
                        ));
                    }
                }
            }
            k += 1;
            self.update_consolidate_progress(k, n_target, progress_reporter);
        }
        proof {
            assert forall|a: (int, Seq<char>)|
                #[trigger] occurrence_count(synthesized_records@.skip(base), a) <= attr_count(
                old(self).single_attr_counts@,
                a,
                0usize,
            ) by {
                assert(occurrence_count(synthesized_records@.skip(base), a) + attr_count(
                    consolidate_context.available_attrs@,
                    a,
                    0isize,
                ) == attr_count(avail0, a, 0isize));
                assert(attr_count(consolidate_context.available_attrs@, a, 0isize) >= 0) by {
                    if exists|j: int|
                        0 <= j < consolidate_context.available_attrs@.len() && (
                        #[trigger] consolidate_context.available_attrs@[j]).0@ == a {
                        let j = choose|j: int|
                            0 <= j < consolidate_context.available_attrs@.len() && (
                            #[trigger] consolidate_context.available_attrs@[j]).0@ == a;
                        crate::typedefs::lemma_attr_count_at(
                            consolidate_context.available_attrs@,
                            j,
                            0isize,
                        );
                    }
                }
                lemma_iso_counts(old(self).single_attr_counts@, avail0, a);
            }
        }
    }

    /// Removes attribute occurrences past each attribute's protected
    /// count, scanning the records in order and keeping the earliest
    /// occurrences; records are never dropped, so a record may come out
    /// empty. The scan order makes the outcome deterministic. Rarity is
    /// judged per attribute: capping every attribute's total released
    /// occurrences at its protected single-attribute count is the chosen
    /// rendering of suppressing attributes whose joint combination with
    /// the rest of the record would be too rare to release.
    pub fn suppress<T: ReportProgress>(
        &mut self,
        synthesized_records: &mut SynthesizedRecords,
        progress_reporter: &mut Option<T>,
    )
        requires
            old(self).wf(),
            forall|i: int|
                0 <= i < old(synthesized_records)@.len() ==> (#[trigger] old(synthesized_records)@[i]).wf(),
        ensures
            final(self).wf(),
            only_progress_changed(*old(self), *final(self)),
            final(self).consolidate_percentage == old(self).consolidate_percentage,
            final(synthesized_records)@.len() == old(synthesized_records)@.len(),
            forall|i: int|
                0 <= i < final(synthesized_records)@.len() ==> {
                    &&& (#[trigger] final(synthesized_records)@[i]).wf()
                    &&& final(synthesized_records)@[i]@.len() <= old(synthesized_records)@[i]@.len()
                },
            forall|i: int, x: (int, Seq<char>)|
                0 <= i < final(synthesized_records)@.len() && (#[trigger] final(synthesized_records)@[i]@.contains(x)) ==> old(synthesized_records)@[i]@.contains(x),
            forall|a: (int, Seq<char>)|
                #[trigger] occurrence_count(final(synthesized_records)@, a) <= protected_count(
                    attr_count(old(self).single_attr_counts@, a, 0usize) as int,
                    old(self).resolution as int,
                ),
            forall|a: (int, Seq<char>)|
                #[trigger] occurrence_count(final(synthesized_records)@, a) == min_int(
                    protected_count(
                        attr_count(old(self).single_attr_counts@, a, 0usize) as int,
                        old(self).resolution as int,
                    ),
                    occurrence_count(old(synthesized_records)@, a),
                ),
            old(progress_reporter).is_some() && old(synthesized_records)@.len() > 0
                ==> final(self).suppress_percentage == 100,
            old(progress_reporter).is_none() || old(synthesized_records)@.len() == 0
                ==> final(self).suppress_percentage == old(self).suppress_percentage,
            final(progress_reporter).is_some() == old(progress_reporter).is_some(),
    {
        let total = synthesized_records.len();
        let mut out: SynthesizedRecords = Vec::new();
        let mut seen: AttributeCountMap = Vec::new();
        let mut idx: usize = 0;
        proof {
            assert forall|a: (int, Seq<char>)|
                #[trigger] attr_count(seen@, a, 0usize) as int == min_int(
                protected_count(
                    attr_count(self.single_attr_counts@, a, 0usize) as int,
                    self.resolution as int,
                ),
                occurrence_count(synthesized_records@.take(idx as int), a),
            ) by {
                lemma_protected_nonneg(
                    attr_count(self.single_attr_counts@, a, 0usize) as int,
                    self.resolution as int,
                );
                assert(synthesized_records@.take(idx as int) =~= Seq::<
                    SynthesizedRecord,
                >::empty());
            }
        }
        while idx < total
            invariant
                0 <= idx <= total,
                total == synthesized_records@.len(),
                self.wf(),
                only_progress_changed(*old(self), *self),
                self.consolidate_percentage == old(self).consolidate_percentage,
                synthesized_records@ == old(synthesized_records)@,
                forall|i: int|
                    0 <= i < synthesized_records@.len() ==> (#[trigger] synthesized_records@[i]).wf(),
                out@.len() == idx,
                forall|i: int|
                    0 <= i < idx ==> (#[trigger] out@[i]).wf() && out@[i]@.len()
                        <= synthesized_records@[i]@.len(),
                forall|i: int, x: (int, Seq<char>)|
                    0 <= i < idx && (#[trigger] out@[i]@.contains(x))
                        ==> synthesized_records@[i]@.contains(x),
                distinct_attr_keys(seen@),
                forall|a: (int, Seq<char>)|
                    #[trigger] attr_count(seen@, a, 0usize) as int == occurrence_count(out@, a),
                forall|a: (int, Seq<char>)|
                    #[trigger] attr_count(seen@, a, 0usize) as int <= protected_count(
                        attr_count(self.single_attr_counts@, a, 0usize) as int,
                        self.resolution as int,
                    ),
                forall|a: (int, Seq<char>)|
                    #[trigger] attr_count(seen@, a, 0usize) as int == min_int(
                        protected_count(
                            attr_count(self.single_attr_counts@, a, 0usize) as int,
                            self.resolution as int,
                        ),
                        occurrence_count(synthesized_records@.take(idx as int), a),
                    ),
                old(progress_reporter).is_some() && idx > 0 ==> self.suppress_percentage
                    == spec_percentage(idx as int, total as int),
                old(progress_reporter).is_some() && idx > 0 && idx == total
                    ==> self.suppress_percentage == 100,
                old(progress_reporter).is_none() || idx == 0 ==> self.suppress_percentage
                    == old(self).suppress_percentage,
                progress_reporter.is_some() == old(progress_reporter).is_some(),
            decreases total - idx,
        {
            let ghost rec_view = synthesized_records@[idx as int]@;
            let mut new_rec = ValueCombination::empty();
            let mut j: usize = 0;
            while j < synthesized_records[idx].attrs.len()
                invariant
                    0 <= j <= synthesized_records@[idx as int].attrs@.len(),
                    0 <= idx < synthesized_records@.len(),
                    rec_view == synthesized_records@[idx as int]@,
                    rec_view.len() == synthesized_records@[idx as int].attrs@.len(),
                    self.wf(),
                    (synthesized_records@[idx as int]).wf(),
                    new_rec.wf(),
                    new_rec@.len() <= j,
                    forall|x: (int, Seq<char>)|
                        #[trigger] new_rec@.contains(x) ==> exists|l: int|
                            0 <= l < j && rec_view[l] == x,
                    distinct_attr_keys(seen@),
                    forall|a: (int, Seq<char>)|
                        #[trigger] attr_count(seen@, a, 0usize) as int == occurrence_count(
                            out@,
                            a,
                        ) + (if new_rec@.contains(a) {
                            1int
                        } else {
                            0int
                        }),
                    forall|a: (int, Seq<char>)|
                        #[trigger] attr_count(seen@, a, 0usize) as int <= protected_count(
                            attr_count(self.single_attr_counts@, a, 0usize) as int,
                            self.resolution as int,
                        ),
                    synthesized_records@ == old(synthesized_records)@,
                    forall|a: (int, Seq<char>)|
                        #[trigger] attr_count(seen@, a, 0usize) as int == min_int(
                            protected_count(
                                attr_count(self.single_attr_counts@, a, 0usize) as int,
                                self.resolution as int,
                            ),
                            occurrence_count(synthesized_records@.take(idx as int), a) + (
                            if rec_view.take(j as int).contains(a) {
                                1int
                            } else {
                                0int
                            }),
                        ),
                decreases synthesized_records@[idx as int].attrs@.len() - j,
            {
                let attr = &synthesized_records[idx].attrs[j];
                proof {
                    assert(attr@ == rec_view[j as int]);
                }
                let allowed = self.allowed_count(attr);
                let used = get_attr_count(&seen, attr);
                if used < allowed {
                    proof {
                        if new_rec.has_column(attr.column_index as int) {
                            let i = choose|i: int|
                                0 <= i < new_rec@.len() && (#[trigger] new_rec@[i]).0 == attr@.0;
                            assert(new_rec@.contains(new_rec@[i]));
                            let l = choose|l: int|
                                0 <= l < j && rec_view[l] == new_rec@[i];
                            assert(rec_view[l].0 == rec_view[j as int].0);
                        }
                        if new_rec@.contains(attr@) {
                            let i = choose|i: int|
                                0 <= i < new_rec@.len() && new_rec@[i] == attr@;
                            assert(new_rec@[i].0 == attr@.0);
                            assert(new_rec.has_column(attr@.0));
                        }
                    }
                    new_rec = new_rec.extended_with(attr);
                    increment_attr_count(&mut seen, attr);
                }
                proof {
                    assert(rec_view.take(j + 1) =~= rec_view.take(j as int).push(
                        rec_view[j as int],
                    ));
                    if rec_view.take(j as int).contains(rec_view[j as int]) {
                        let l = choose|l: int|
                            0 <= l < rec_view.take(j as int).len() && (#[trigger] rec_view.take(
                                j as int,
                            )[l]) == rec_view[j as int];
                        assert(rec_view[l].0 == rec_view[j as int].0);
                        assert(false);
                    }
                    assert forall|a: (int, Seq<char>)|
                        #[trigger] rec_view.take(j + 1).contains(a) == (rec_view.take(
                        j as int,
                    ).contains(a) || a == rec_view[j as int]) by {
                        if rec_view.take(j + 1).contains(a) {
                            let l = choose|l: int|
                                0 <= l < rec_view.take(j + 1).len() && (#[trigger] rec_view.take(
                                    j + 1,
                                )[l]) == a;
                            if l < j as int {
                                assert(rec_view.take(j as int)[l] == a);
                                assert(rec_view.take(j as int).contains(a));
                            } else {
                                assert(a == rec_view[j as int]);
                            }
                        }
                        if rec_view.take(j as int).contains(a) {
                            let l = choose|l: int|
                                0 <= l < rec_view.take(j as int).len() && (#[trigger] rec_view.take(
                                    j as int,
                                )[l]) == a;
                            assert(rec_view.take(j + 1)[l] == a);
                            assert(rec_view.take(j + 1).contains(a));
                        }
                        if a == rec_view[j as int] {
                            assert(rec_view.take(j + 1)[j as int] == a);
                            assert(rec_view.take(j + 1).contains(a));
                        }
                    }
                }
                j += 1;
            }
            let ghost pre_out = out@;
            out.push(new_rec);
            proof {
                lemma_occurrence_push(pre_out, new_rec);
                assert(pre_out.push(new_rec) =~= out@);
                assert(rec_view.take(rec_view.len() as int) =~= rec_view);
                assert(synthesized_records@.take(idx + 1) =~= synthesized_records@.take(
                    idx as int,
                ).push(synthesized_records@[idx as int]));
                lemma_occurrence_push(
                    synthesized_records@.take(idx as int),
                    synthesized_records@[idx as int],
                );
                assert forall|x: (int, Seq<char>)| #[trigger] new_rec@.contains(x)
                    implies rec_view.contains(x) by {
                    let l = choose|l: int| 0 <= l < rec_view.len() && rec_view[l] == x;
                }
            }
            idx += 1;
            self.update_suppress_progress(idx, total, progress_reporter);
        }
        *synthesized_records = out;
        proof {
            assert(old(synthesized_records)@.take(total as int) =~= old(synthesized_records)@);
            assert forall|a: (int, Seq<char>)|
                #[trigger] occurrence_count(synthesized_records@, a) <= protected_count(
                attr_count(old(self).single_attr_counts@, a, 0usize) as int,
                old(self).resolution as int,
            ) by {
                assert(attr_count(seen@, a, 0usize) as int == occurrence_count(
                    synthesized_records@,
                    a,
                ));
            }
            assert forall|a: (int, Seq<char>)|
                #[trigger] occurrence_count(synthesized_records@, a) == min_int(
                protected_count(
                    attr_count(old(self).single_attr_counts@, a, 0usize) as int,
                    old(self).resolution as int,
                ),
                occurrence_count(old(synthesized_records)@, a),
            ) by {
                assert(attr_count(seen@, a, 0usize) as int == occurrence_count(
                    synthesized_records@,
                    a,
                ));
                assert(attr_count(seen@, a, 0usize) as int == min_int(
                    protected_count(
                        attr_count(old(self).single_attr_counts@, a, 0usize) as int,
                        old(self).resolution as int,
                    ),
                    occurrence_count(old(synthesized_records)@.take(total as int), a),
                ));
            }
        }
    }

    /// Performs the synthesis from the aggregates: the consolidation
    /// phase builds the records and the suppression phase prunes them.
    /// An empty data block yields an empty result with no phase entered;
    /// otherwise both phase percentages are reset before the phases run.
    pub fn run<T: ReportProgress>(&mut self, progress_reporter: &mut Option<T>) -> (r:
        SynthesizedRecords)
        requires
            old(self).wf(),
        ensures
            final(self).wf(),
            only_progress_changed(*old(self), *final(self)),
            old(self).data_block.num_rows() == 0 ==> r@.len() == 0 && *final(self) == *old(self)
                && *final(progress_reporter) == *old(progress_reporter),
            old(self).data_block.num_rows() > 0 ==> r@.len() == old(self).data_block.spec_protected_number_of_records(old(self).resolution as int),
            forall|i: int| 0 <= i < r@.len() ==> (#[trigger] r@[i]).wf(),
            old(self).data_block.num_rows() > 0 ==> forall|a: (int, Seq<char>)|
                #[trigger] occurrence_count(r@, a) <= protected_count(
                    attr_count(old(self).single_attr_counts@, a, 0usize) as int,
                    old(self).resolution as int,
                ),
            old(self).data_block.num_rows() > 0 && old(progress_reporter).is_some() && old(self).data_block.spec_protected_number_of_records(old(self).resolution as int) > 0
                ==> final(self).consolidate_percentage == 100 && final(self).suppress_percentage
                == 100,
            final(progress_reporter).is_some() == old(progress_reporter).is_some(),
            old(self).data_block.num_rows() > 0 ==> exists|mid: Seq<SynthesizedRecord>|
                #[trigger] synthesis_phases_ok(
                    old(self).consolidate_parameters.aggregated_data.aggregates_count@,
                    old(self).single_attr_counts@,
                    old(self).resolution as int,
                    old(self).data_block.spec_protected_number_of_records(
                        old(self).resolution as int,
                    ),
                    mid,
                    r@,
                ),
    {
        let mut synthesized_records: SynthesizedRecords = Vec::new();
        if !self.data_block.records.is_empty() {
            let mut synthesizer_context = SynthesizerContext::new(
                self.data_block.clone_block(),
                self.resolution,
                self.cache_max_size,
            );
            self.consolidate_percentage = 0;
            self.suppress_percentage = 0;
            self.consolidate(
                &mut synthesized_records,
                progress_reporter,
                &mut synthesizer_context,
            );
            let ghost mid = synthesized_records@;
            self.suppress(&mut synthesized_records, progress_reporter);
            proof {
                assert(synthesis_phases_ok(
                    old(self).consolidate_parameters.aggregated_data.aggregates_count@,
                    old(self).single_attr_counts@,
                    old(self).resolution as int,
                    old(self).data_block.spec_protected_number_of_records(
                        old(self).resolution as int,
                    ),
                    mid,
                    synthesized_records@,
                ));
            }
        }
        synthesized_records
    }
}

/// Sum of the nonnegative budget parts is never negative.
pub proof fn lemma_avail_total_nonneg(m: Seq<(DataBlockValue, isize)>)
    ensures
        avail_total(m) >= 0,
    decreases m.len(),
{
    if m.len() > 0 {
        lemma_avail_total_nonneg(m.drop_last());
    }
}


/// Views of an attribute/count list: each entry as its attribute view and
/// count.
pub open spec fn cand_pair_views(s: Seq<(DataBlockValue, isize)>) -> Seq<((int, Seq<char>), int)> {
    s.map(|i: int, p: (DataBlockValue, isize)| (p.0@, p.1 as int))
}

/// Reads the single-attribute counts off the length-one aggregate
/// entries, in aggregate order.
fn collect_single_attr_counts(m: &Vec<(ValueCombination, usize)>) -> (r: AttributeCountMap)
    requires
        distinct_combo_keys(m@),
    ensures
        distinct_attr_keys(r@),
        r@.len() == single_attr_views(m@).len(),
        forall|k: int|
            0 <= k < r@.len() ==> ((#[trigger] r@[k]).0@, r@[k].1 as int) == single_attr_views(
                m@,
            )[k],
{
    let ghost views = single_attr_views(m@);
    let mut r: AttributeCountMap = Vec::new();
    let mut i: usize = 0;
    proof {
        assert(m@.skip(0) =~= m@);
    }
    while i < m.len()
        invariant
            0 <= i <= m@.len(),
            distinct_combo_keys(m@),
            views == single_attr_views(m@),
            views =~= count_pair_views(r@) + single_attr_views(m@.skip(i as int)),
            forall|k: int|
                0 <= k < r@.len() ==> ((#[trigger] r@[k]).0@, r@[k].1 as int) == views[k],
            forall|k: int| #![trigger r@[k]]
                0 <= k < r@.len() ==> exists|j: int|
                    0 <= j < i && (#[trigger] m@[j]).0@ == seq![r@[k].0@],
            distinct_attr_keys(r@),
        decreases m@.len() - i,
    {
        proof {
            assert(m@.skip(i as int).drop_first() =~= m@.skip(i + 1));
            assert(m@.skip(i as int)[0] == m@[i as int]);
        }
        let ghost pre = r@;
        if m[i].0.len() == 1 {
            let attr = &m[i].0.attrs[0];
            proof {
                assert(attr@ == m@[i as int].0@[0]);
                assert(m@[i as int].0@ =~= seq![attr@]);
            }
            let count = m[i].1;
            r.push((attr.clone_value(), count));
            proof {
                assert(count_pair_views(r@) =~= count_pair_views(pre) + seq![
                    (attr@, count as int),
                ]);
                assert(single_attr_views(m@.skip(i as int)) == seq![(attr@, count as int)]
                    + single_attr_views(m@.skip(i + 1)));
                assert(views =~= count_pair_views(r@) + single_attr_views(m@.skip(i + 1)));
                assert forall|k1: int, k2: int| #![trigger r@[k1], r@[k2]]
                    0 <= k1 < k2 < r@.len() implies r@[k1].0@ != r@[k2].0@ by {
                    if k2 == r@.len() - 1 {
                        let j = choose|j: int|
                            0 <= j < i && (#[trigger] m@[j]).0@ == seq![pre[k1].0@];
                        if r@[k1].0@ == attr@ {
                            assert(m@[j].0@ =~= m@[i as int].0@);
                        }
                    }
                }
                assert forall|k: int| #![trigger r@[k]] 0 <= k < r@.len() implies exists|
                    j: int,
                |
                    0 <= j < i + 1 && (#[trigger] m@[j]).0@ == seq![r@[k].0@] by {
                    if k < pre.len() {
                        let j = choose|j: int|
                            0 <= j < i && (#[trigger] m@[j]).0@ == seq![pre[k].0@];
                        assert(m@[j].0@ == seq![r@[k].0@]);
                    } else {
                        assert(m@[i as int].0@ == seq![r@[k].0@]);
                    }
                }
            }
        } else {
            proof {
                assert(single_attr_views(m@.skip(i as int)) == single_attr_views(m@.skip(i + 1)));
            }
        }
        i += 1;
    }
    proof {
        assert(m@.skip(m@.len() as int) =~= Seq::<(ValueCombination, usize)>::empty());
        assert(views =~= count_pair_views(r@));
    }
    r
}

/// Views of an attribute/count list counting in `usize`.
pub open spec fn count_pair_views(s: Seq<(DataBlockValue, usize)>) -> Seq<((int, Seq<char>), int)> {
    s.map(|i: int, p: (DataBlockValue, usize)| (p.0@, p.1 as int))
}

} // verus!

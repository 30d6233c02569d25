use crate::aggregated_data::{combo_count, AggregatedData, ConsolidateParameters};
use crate::data_block::{DataBlock, DataBlockValue};
use crate::typedefs::{
    attr_count, distinct_attr_keys, get_available_count, is_not_allowed, not_allowed_contains,
    AvailableAttrsMap, NotAllowedAttrSet, SynthesizedRecord,
};
use crate::value_combination::{
    lemma_canonical_combination_unique, seq_has_column, sorted_by_column, ValueCombination,
};
use vstd::prelude::*;

verus! {

/// Canonical view of a combination extended with one more attribute:
/// `a` inserted at its column-sorted position.
pub open spec fn insert_by_column(s: Seq<(int, Seq<char>)>, a: (int, Seq<char>)) -> Seq<
    (int, Seq<char>),
>
    decreases s.len(),
{
    if s.len() == 0 {
        seq![a]
    } else if a.0 < s[0].0 {
        seq![a] + s
    } else {
        seq![s[0]] + insert_by_column(s.drop_first(), a)
    }
}

/// Inserting into a canonical combination at a free column keeps it
/// canonical and adds exactly the new attribute.
pub proof fn lemma_insert_by_column_props(s: Seq<(int, Seq<char>)>, a: (int, Seq<char>))
    requires
        sorted_by_column(s),
        !seq_has_column(s, a.0),
    ensures
        sorted_by_column(insert_by_column(s, a)),
        insert_by_column(s, a).len() == s.len() + 1,
        forall|x: (int, Seq<char>)| #![trigger insert_by_column(s, a).contains(x)]
            insert_by_column(s, a).contains(x) <==> (s.contains(x) || x == a),
    decreases s.len(),
{
    let r = insert_by_column(s, a);
    if s.len() == 0 {
        assert forall|x: (int, Seq<char>)| #![trigger r.contains(x)]
            r.contains(x) <==> (s.contains(x) || x == a) by {
            if r.contains(x) {
                let k = choose|k: int| 0 <= k < r.len() && r[k] == x;
                assert(x == a);
            }
            if x == a {
                assert(r[0] == x);
            }
            if s.contains(x) {
                let k = choose|k: int| 0 <= k < s.len() && s[k] == x;
                assert(false);
            }
        }
    } else if a.0 < s[0].0 {
        assert forall|i: int, j: int| #![trigger r[i], r[j]]
            0 <= i < j < r.len() implies r[i].0 < r[j].0 by {
            if i > 0 {
                assert(r[i] == s[i - 1] && r[j] == s[j - 1]);
            } else {
                assert(r[j] == s[j - 1]);
                if j > 1 {
                    assert(s[0].0 < s[j - 1].0);
                }
            }
        }
        assert forall|x: (int, Seq<char>)| #![trigger r.contains(x)]
            r.contains(x) <==> (s.contains(x) || x == a) by {
            if r.contains(x) {
                let k = choose|k: int| 0 <= k < r.len() && r[k] == x;
                if k == 0 {
                    assert(x == a);
                } else {
                    assert(s[k - 1] == x);
                    assert(s.contains(x));
                }
            }
            if s.contains(x) {
                let k = choose|k: int| 0 <= k < s.len() && s[k] == x;
                assert(r[k + 1] == x);
                assert(r.contains(x));
            }
            if x == a {
                assert(r[0] == x);
                assert(r.contains(x));
            }
        }
    } else {
        let t = s.drop_first();
        assert(s[0].0 != a.0) by {
            if s[0].0 == a.0 {
                assert(seq_has_column(s, a.0));
            }
        }
        assert(sorted_by_column(t)) by {
            assert forall|i: int, j: int| #![trigger t[i], t[j]]
                0 <= i < j < t.len() implies t[i].0 < t[j].0 by {
                assert(s[i + 1].0 < s[j + 1].0);
            }
        }
        assert(!seq_has_column(t, a.0)) by {
            if seq_has_column(t, a.0) {
                let k = choose|k: int| #![trigger t[k]] 0 <= k < t.len() && t[k].0 == a.0;
                assert(s[k + 1].0 == a.0);
                assert(seq_has_column(s, a.0));
            }
        }
        lemma_insert_by_column_props(t, a);
        let rt = insert_by_column(t, a);
        assert(r =~= seq![s[0]] + rt);
        // the head column is the smallest one in the tail insertion
        assert forall|k: int| #![trigger rt[k]] 0 <= k < rt.len() implies s[0].0 < rt[k].0 by {
            assert(rt.contains(rt[k]));
            if rt[k] == a {
                assert(s[0].0 < a.0);
            } else {
                assert(t.contains(rt[k]));
                let l = choose|l: int| 0 <= l < t.len() && t[l] == rt[k];
                assert(s[l + 1] == rt[k]);
                assert(s[0].0 < s[l + 1].0);
            }
        }
        assert forall|i: int, j: int| #![trigger r[i], r[j]]
            0 <= i < j < r.len() implies r[i].0 < r[j].0 by {
            if i == 0 {
                assert(r[j] == rt[j - 1]);
            } else {
                assert(r[i] == rt[i - 1] && r[j] == rt[j - 1]);
            }
        }
        assert forall|x: (int, Seq<char>)| #![trigger r.contains(x)]
            r.contains(x) <==> (s.contains(x) || x == a) by {
            if r.contains(x) {
                let k = choose|k: int| 0 <= k < r.len() && r[k] == x;
                if k == 0 {
                    assert(s[0] == x);
                    assert(s.contains(x));
                } else {
                    assert(rt[k - 1] == x);
                    assert(rt.contains(x));
                    if t.contains(x) {
                        let l = choose|l: int| 0 <= l < t.len() && t[l] == x;
                        assert(s[l + 1] == x);
                        assert(s.contains(x));
                    }
                }
            }
            if s.contains(x) {
                let k = choose|k: int| 0 <= k < s.len() && s[k] == x;
                if k == 0 {
                    assert(r[0] == x);
                } else {
                    assert(t[k - 1] == x);
                    assert(t.contains(x));
                    assert(rt.contains(x));
                    let l = choose|l: int| 0 <= l < rt.len() && rt[l] == x;
                    assert(r[l + 1] == x);
                }
                assert(r.contains(x));
            }
            if x == a {
                assert(rt.contains(x));
                let l = choose|l: int| 0 <= l < rt.len() && rt[l] == x;
                assert(r[l + 1] == x);
                assert(r.contains(x));
            }
        }
    }
}

/// Inserting an attribute whose column lies above every column of the
/// combination appends it at the end.
pub proof fn lemma_insert_by_column_append(s: Seq<(int, Seq<char>)>, a: (int, Seq<char>))
    requires
        forall|i: int| 0 <= i < s.len() ==> (#[trigger] s[i]).0 < a.0,
    ensures
        insert_by_column(s, a) == s.push(a),
    decreases s.len(),
{
    if s.len() == 0 {
        assert(insert_by_column(s, a) =~= s.push(a));
    } else {
        assert(s[0].0 < a.0);
        let t = s.drop_first();
        assert forall|i: int| 0 <= i < t.len() implies (#[trigger] t[i]).0 < a.0 by {
            assert(t[i] == s[i + 1]);
        }
        lemma_insert_by_column_append(t, a);
        assert(seq![s[0]] + t.push(a) =~= s.push(a));
    }
}

/// Views of a weighted candidate list: each attribute with its weight.
pub open spec fn cand_views(s: Seq<(DataBlockValue, usize)>) -> Seq<((int, Seq<char>), int)> {
    s.map(|i: int, p: (DataBlockValue, usize)| (p.0@, p.1 as int))
}

/// Weighted candidate attributes that could extend `last`: every single
/// attribute counted in the aggregate data whose column is still free in
/// `last` and whose extended combination retains a positive count; the
/// weight is that retained count. `all` carries the counts looked up,
/// `rem` is the part of the aggregate entries still to be walked.
pub open spec fn candidates_from(
    all: Seq<(ValueCombination, usize)>,
    rem: Seq<(ValueCombination, usize)>,
    last: Seq<(int, Seq<char>)>,
) -> Seq<((int, Seq<char>), int)>
    decreases rem.len(),
{
    if rem.len() == 0 {
        Seq::empty()
    } else {
        let rest = candidates_from(all, rem.drop_first(), last);
        if rem[0].0@.len() == 1 && !seq_has_column(last, rem[0].0@[0].0) && combo_count(
            all,
            insert_by_column(last, rem[0].0@[0]),
        ) > 0 {
            seq![(rem[0].0@[0], combo_count(all, insert_by_column(last, rem[0].0@[0])))] + rest
        } else {
            rest
        }
    }
}

/// Weight of attribute `a` as a candidate to extend `last`: the count
/// retained for the extended combination in the aggregate data.
pub open spec fn cand_weight(
    agg: Seq<(ValueCombination, usize)>,
    last: Seq<(int, Seq<char>)>,
    a: (int, Seq<char>),
) -> int {
    combo_count(agg, insert_by_column(last, a))
}

/// Every candidate carries its own weight: positive, and exactly the
/// count retained for the extended combination.
pub proof fn lemma_candidates_form(
    all: Seq<(ValueCombination, usize)>,
    rem: Seq<(ValueCombination, usize)>,
    last: Seq<(int, Seq<char>)>,
)
    ensures
        forall|k: int|
            0 <= k < candidates_from(all, rem, last).len() ==> {
                &&& (#[trigger] candidates_from(all, rem, last)[k]).1 == cand_weight(
                    all,
                    last,
                    candidates_from(all, rem, last)[k].0,
                )
                &&& candidates_from(all, rem, last)[k].1 > 0
            },
    decreases rem.len(),
{
    if rem.len() > 0 {
        lemma_candidates_form(all, rem.drop_first(), last);
        let r = candidates_from(all, rem, last);
        let rest = candidates_from(all, rem.drop_first(), last);
        if rem[0].0@.len() == 1 && !seq_has_column(last, rem[0].0@[0].0) && combo_count(
            all,
            insert_by_column(last, rem[0].0@[0]),
        ) > 0 {
            assert forall|k: int| 0 <= k < r.len() implies {
                &&& (#[trigger] r[k]).1 == cand_weight(all, last, r[k].0)
                &&& r[k].1 > 0
            } by {
                if k > 0 {
                    assert(r[k] == rest[k - 1]);
                }
            }
        }
    }
}

/// An attribute `a` may be sampled next: it is a weighted candidate for
/// the last processed combination, it has budget left, it is not
/// forbidden, and its column is still free in the record.
pub open spec fn eligible_candidate(
    agg: Seq<(ValueCombination, usize)>,
    avail: Seq<(DataBlockValue, isize)>,
    last: Seq<(int, Seq<char>)>,
    record: Seq<(int, Seq<char>)>,
    not_allowed: Seq<DataBlockValue>,
    a: (int, Seq<char>),
) -> bool {
    &&& candidates_from(agg, agg, last).contains((a, cand_weight(agg, last, a)))
    &&& cand_weight(agg, last, a) > 0
    &&& attr_count(avail, a, 0isize) > 0
    &&& !not_allowed_contains(not_allowed, a)
    &&& !seq_has_column(record, a.0)
}

/// What a sampling answer promises: a drawn attribute is eligible and of
/// maximal weight among the eligible candidates; no attribute is drawn
/// exactly when none is eligible.
pub open spec fn sampled_attr_ok(
    agg: Seq<(ValueCombination, usize)>,
    avail: Seq<(DataBlockValue, isize)>,
    last: Seq<(int, Seq<char>)>,
    record: Seq<(int, Seq<char>)>,
    not_allowed: Seq<DataBlockValue>,
    r: Option<DataBlockValue>,
) -> bool {
    match r {
        Some(v) => {
            &&& eligible_candidate(agg, avail, last, record, not_allowed, v@)
            &&& forall|a: (int, Seq<char>)|
                #[trigger] eligible_candidate(agg, avail, last, record, not_allowed, a)
                    ==> cand_weight(agg, last, a) <= cand_weight(agg, last, v@)
        },
        None => forall|a: (int, Seq<char>)|
            !#[trigger] eligible_candidate(agg, avail, last, record, not_allowed, a),
    }
}

/// Budget snapshot the sampler reads while one record is being built.
pub struct ConsolidateContext {
    /// Remaining budget for every attribute still available.
    pub available_attrs: AvailableAttrsMap,
}

/// Per-run sampling state: the data block handle, the reporting
/// resolution, and a bounded cache from a sampling state (the last
/// processed combination) to its weighted candidate list, so repeated
/// states are not recomputed. Eviction is in insertion order once
/// `cache_max_size` entries are resident.
pub struct SynthesizerContext {
    pub data_block: DataBlock,
    pub resolution: usize,
    pub cache_max_size: usize,
    pub cache: Vec<(ValueCombination, Vec<(DataBlockValue, usize)>)>,
}

impl SynthesizerContext {
    /// Every cached list is exactly the candidate list its key computes
    /// to under the aggregate counts `agg`, and the cache stays bounded.
    pub open spec fn cache_wf(&self, agg: Seq<(ValueCombination, usize)>) -> bool {
        &&& self.cache@.len() <= self.cache_max_size
        &&& forall|k: int|
            0 <= k < self.cache@.len() ==> cand_views((#[trigger] self.cache@[k]).1@)
                == candidates_from(agg, agg, self.cache@[k].0@)
    }

    pub fn new(data_block: DataBlock, resolution: usize, cache_max_size: usize) -> (r:
        SynthesizerContext)
        ensures
            r.data_block == data_block,
            r.resolution == resolution,
            r.cache_max_size == cache_max_size,
            r.cache@.len() == 0,
            forall|agg: Seq<(ValueCombination, usize)>| r.cache_wf(agg),
    {
        SynthesizerContext { data_block, resolution, cache_max_size, cache: Vec::new() }
    }

    /// Picks the next attribute for the record being built: the weighted
    /// candidates for `last_processed` are taken from the cache (or
    /// computed and cached on a miss), then the eligible candidate with
    /// the greatest retained count wins, the earliest one in aggregate
    /// order on ties. Returns `None` when no candidate is eligible, the
    /// normal end of a record.
    pub fn sample_next_attr_from_aggregates(
        &mut self,
        consolidate_context: &ConsolidateContext,
        last_processed: &ValueCombination,
        synthesized_record: &SynthesizedRecord,
        not_allowed_attr_set: &NotAllowedAttrSet,
        consolidate_parameters: &ConsolidateParameters,
    ) -> (r: Option<DataBlockValue>)
        requires
            consolidate_parameters.wf(),
            old(self).cache_wf(consolidate_parameters.aggregated_data.aggregates_count@),
            distinct_attr_keys(consolidate_context.available_attrs@),
            last_processed.wf(),
        ensures
            final(self).cache_wf(consolidate_parameters.aggregated_data.aggregates_count@),
            final(self).resolution == old(self).resolution,
            final(self).cache_max_size == old(self).cache_max_size,
            final(self).data_block == old(self).data_block,
            sampled_attr_ok(
                consolidate_parameters.aggregated_data.aggregates_count@,
                consolidate_context.available_attrs@,
                last_processed@,
                synthesized_record@,
                not_allowed_attr_set@,
                r,
            ),
    {
        let ghost agg = consolidate_parameters.aggregated_data.aggregates_count@;
        let cands = self.candidates_for(last_processed, consolidate_parameters);
        let ghost cvs = candidates_from(agg, agg, last_processed@);
        let mut best_idx: usize = 0;
        let mut best_w: usize = 0;
        let mut found = false;
        let mut j: usize = 0;
        while j < cands.len()
            invariant
                0 <= j <= cands@.len(),
                distinct_attr_keys(consolidate_context.available_attrs@),
                cand_views(cands@) == cvs,
                cvs.len() == cands@.len(),
                forall|k: int| 0 <= k < cands@.len()
                    ==> #[trigger] cvs[k] == ((cands@[k].0@, cands@[k].1 as int)),
                !found ==> forall|k: int|
                    0 <= k < j ==> !(#[trigger] attr_count(
                        consolidate_context.available_attrs@,
                        cvs[k].0,
                        0isize,
                    ) > 0 && !not_allowed_contains(not_allowed_attr_set@, cvs[k].0)
                        && !seq_has_column(synthesized_record@, cvs[k].0.0)),
                found ==> {
                    &&& 0 <= best_idx < j
                    &&& cvs[best_idx as int].1 == best_w
                    &&& attr_count(
                        consolidate_context.available_attrs@,
                        cvs[best_idx as int].0,
                        0isize,
                    ) > 0
                    &&& !not_allowed_contains(not_allowed_attr_set@, cvs[best_idx as int].0)
                    &&& !seq_has_column(synthesized_record@, cvs[best_idx as int].0.0)
                    &&& forall|k: int|
                        0 <= k < j ==> ((#[trigger] attr_count(
                            consolidate_context.available_attrs@,
                            cvs[k].0,
                            0isize,
                        ) > 0 && !not_allowed_contains(not_allowed_attr_set@, cvs[k].0)
                            && !seq_has_column(synthesized_record@, cvs[k].0.0)) ==> cvs[k].1
                            <= best_w)
                },
            decreases cands@.len() - j,
        {
            let a = &cands[j].0;
            let w = cands[j].1;
            proof {
                assert(cvs[j as int] == (a@, w as int));
            }
            if get_available_count(&consolidate_context.available_attrs, a) > 0
                && !is_not_allowed(not_allowed_attr_set, a) && !synthesized_record.contains_column(
                a.column_index,
            ) {
                if !found || w > best_w {
                    best_idx = j;
                    best_w = w;
                    found = true;
                }
            }
            j += 1;
        }
        if found {
            let v = cands[best_idx].0.clone_value();
            proof {
                lemma_candidates_form(agg, agg, last_processed@);
                let bi = best_idx as int;
                assert(cvs[bi].1 == cand_weight(agg, last_processed@, cvs[bi].0));
                assert(v@ == cvs[bi].0);
                assert(cvs[bi] == (v@, cand_weight(agg, last_processed@, v@)));
                assert(cvs.contains(cvs[bi]));
                assert(eligible_candidate(
                    agg,
                    consolidate_context.available_attrs@,
                    last_processed@,
                    synthesized_record@,
                    not_allowed_attr_set@,
                    v@,
                ));
                assert forall|a: (int, Seq<char>)|
                    #[trigger] eligible_candidate(
                        agg,
                        consolidate_context.available_attrs@,
                        last_processed@,
                        synthesized_record@,
                        not_allowed_attr_set@,
                        a,
                    ) implies cand_weight(agg, last_processed@, a) <= cand_weight(
                    agg,
                    last_processed@,
                    v@,
                ) by {
                    assert(cvs.contains((a, cand_weight(agg, last_processed@, a))));
                    let k = choose|k: int|
                        0 <= k < cvs.len() && cvs[k] == (a, cand_weight(agg, last_processed@, a));
                    assert(cvs[k].0 == a && cvs[k].1 == cand_weight(agg, last_processed@, a));
                    assert(attr_count(consolidate_context.available_attrs@, cvs[k].0, 0isize)
                        > 0);
                    assert(!not_allowed_contains(not_allowed_attr_set@, cvs[k].0));
                    assert(!seq_has_column(synthesized_record@, cvs[k].0.0));
                    assert(cvs[k].1 <= best_w as int);
                }
            }
            Some(v)
        } else {
            proof {
                assert forall|a: (int, Seq<char>)|
                    !#[trigger] eligible_candidate(
                        agg,
                        consolidate_context.available_attrs@,
                        last_processed@,
                        synthesized_record@,
                        not_allowed_attr_set@,
                        a,
                    ) by {
                    if eligible_candidate(
                        agg,
                        consolidate_context.available_attrs@,
                        last_processed@,
                        synthesized_record@,
                        not_allowed_attr_set@,
                        a,
                    ) {
                        assert(cvs.contains((a, cand_weight(agg, last_processed@, a))));
                        let k = choose|k: int|
                            0 <= k < cvs.len() && cvs[k] == (
                            a,
                            cand_weight(agg, last_processed@, a),
                            );
                        assert(cvs[k].0 == a);
                        assert(attr_count(
                            consolidate_context.available_attrs@,
                            cvs[k].0,
                            0isize,
                        ) > 0);
                        assert(!not_allowed_contains(not_allowed_attr_set@, cvs[k].0));
                        assert(!seq_has_column(synthesized_record@, cvs[k].0.0));
                        assert(false);
                    }
                }
            }
            None
        }
    }

    /// Candidate list for `last_processed`: answered from the cache when
    /// present, computed and inserted (evicting the oldest entry when the
    /// cache is full) on a miss.
    fn candidates_for(
        &mut self,
        last_processed: &ValueCombination,
        consolidate_parameters: &ConsolidateParameters,
    ) -> (r: Vec<(DataBlockValue, usize)>)
        requires
            consolidate_parameters.wf(),
            old(self).cache_wf(consolidate_parameters.aggregated_data.aggregates_count@),
            last_processed.wf(),
        ensures
            final(self).cache_wf(consolidate_parameters.aggregated_data.aggregates_count@),
            final(self).resolution == old(self).resolution,
            final(self).cache_max_size == old(self).cache_max_size,
            final(self).data_block == old(self).data_block,
            cand_views(r@) == candidates_from(
                consolidate_parameters.aggregated_data.aggregates_count@,
                consolidate_parameters.aggregated_data.aggregates_count@,
                last_processed@,
            ),
    {
        let ghost agg = consolidate_parameters.aggregated_data.aggregates_count@;
        let mut k: usize = 0;
        while k < self.cache.len()
            invariant
                0 <= k <= self.cache@.len(),
                self == old(self),
                self.cache_wf(agg),
                agg == consolidate_parameters.aggregated_data.aggregates_count@,
            decreases self.cache@.len() - k,
        {
            if self.cache[k].0.eq_combination(last_processed) {
                let r = clone_candidates(&self.cache[k].1);
                proof {
                    assert(cand_views(self.cache@[k as int].1@) == candidates_from(
                        agg,
                        agg,
                        last_processed@,
                    ));
                }
                return r;
            }
            k += 1;
        }
        let cands = compute_candidates(&consolidate_parameters.aggregated_data, last_processed);
        if self.cache_max_size > 0 {
            if self.cache.len() >= self.cache_max_size {
                self.cache.remove(0);
                proof {
                    assert forall|i: int|
                        0 <= i < self.cache@.len() implies cand_views(
                        (#[trigger] self.cache@[i]).1@,
                    ) == candidates_from(agg, agg, self.cache@[i].0@) by {
                        assert(self.cache@[i] == old(self).cache@[i + 1]);
                    }
                }
            }
            let stored = clone_candidates(&cands);
            self.cache.push((last_processed.clone_combination(), stored));
        }
        cands
    }
}

/// Copy of a weighted candidate list standing for the same candidates.
fn clone_candidates(s: &Vec<(DataBlockValue, usize)>) -> (r: Vec<(DataBlockValue, usize)>)
    ensures
        cand_views(r@) == cand_views(s@),
{
    let mut r: Vec<(DataBlockValue, usize)> = Vec::new();
    let mut i: usize = 0;
    while i < s.len()
        invariant
            0 <= i <= s@.len(),
            r@.len() == i,
            forall|k: int| 0 <= k < i
                ==> (#[trigger] r@[k]).0@ == s@[k].0@ && r@[k].1 == s@[k].1,
        decreases s@.len() - i,
    {
        let v = s[i].0.clone_value();
        r.push((v, s[i].1));
        i += 1;
    }
    proof {
        assert(cand_views(r@) =~= cand_views(s@));
    }
    r
}

/// Walks the aggregate entries once and collects the weighted candidate
/// attributes that could extend `last`, exactly as `candidates_from`
/// describes them.
fn compute_candidates(aggregated_data: &AggregatedData, last: &ValueCombination) -> (r: Vec<
    (DataBlockValue, usize),
>)
    requires
        aggregated_data.wf(),
        last.wf(),
    ensures
        cand_views(r@) == candidates_from(
            aggregated_data.aggregates_count@,
            aggregated_data.aggregates_count@,
            last@,
        ),
{
    let ghost all = aggregated_data.aggregates_count@;
    let m = &aggregated_data.aggregates_count;
    let mut r: Vec<(DataBlockValue, usize)> = Vec::new();
    let mut i: usize = 0;
    proof {
        assert(all.skip(0) =~= all);
        assert(cand_views(r@) =~= Seq::<((int, Seq<char>), int)>::empty());
        assert(cand_views(r@) + candidates_from(all, all.skip(0), last@) =~= candidates_from(
            all,
            all,
            last@,
        ));
    }
    while i < m.len()
        invariant
            0 <= i <= m@.len(),
            all == m@,
            m@ == aggregated_data.aggregates_count@,
            aggregated_data.wf(),
            last.wf(),
            candidates_from(all, all, last@) =~= cand_views(r@) + candidates_from(
                all,
                all.skip(i as int),
                last@,
            ),
        decreases m@.len() - i,
    {
        let ghost pre = cand_views(r@);
        proof {
            assert(all.skip(i as int).drop_first() =~= all.skip(i + 1));
            assert(all.skip(i as int)[0] == all[i as int]);
        }
        if m[i].0.len() == 1 {
            let attr = &m[i].0.attrs[0];
            proof {
                assert(attr@ == all[i as int].0@[0]);
            }
            if !last.contains_column(attr.column_index) {
                let ext = last.extended_with(attr);
                proof {
                    lemma_insert_by_column_props(last@, attr@);
                    lemma_canonical_combination_unique(
                        ext@,
                        insert_by_column(last@, attr@),
                    );
                }
                let w = aggregated_data.count_for(&ext);
                if w > 0 {
                    r.push((attr.clone_value(), w));
                    proof {
                        assert(cand_views(r@) =~= pre + seq![(attr@, w as int)]);
                        assert(candidates_from(all, all.skip(i as int), last@) == seq![
                            (attr@, w as int),
                        ] + candidates_from(all, all.skip(i + 1), last@));
                        assert(cand_views(r@) + candidates_from(all, all.skip(i + 1), last@)
                            =~= pre + candidates_from(all, all.skip(i as int), last@));
                    }
                } else {
                    proof {
                        assert(candidates_from(all, all.skip(i as int), last@)
                            == candidates_from(all, all.skip(i + 1), last@));
                    }
                }
            } else {
                proof {
                    assert(candidates_from(all, all.skip(i as int), last@) == candidates_from(
                        all,
                        all.skip(i + 1),
                        last@,
                    ));
                }
            }
        } else {
            proof {
                assert(candidates_from(all, all.skip(i as int), last@) == candidates_from(
                    all,
                    all.skip(i + 1),
                    last@,
                ));
            }
        }
        i += 1;
    }
    proof {
        assert(all.skip(all.len() as int) =~= Seq::<(ValueCombination, usize)>::empty());
        assert(cand_views(r@) + candidates_from(all, all.skip(all.len() as int), last@)
            =~= cand_views(r@));
    }
    r
}

} // verus!

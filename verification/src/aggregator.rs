use crate::aggregated_data::{combo_count, distinct_combo_keys, lemma_combo_count_at, AggregatedData};
use crate::context::{insert_by_column, lemma_insert_by_column_append, lemma_insert_by_column_props};
use crate::data_block::{DataBlock, DataBlockRecord, DataBlockValue};
use crate::reporting::{calc_percentage, ReportProgress};
use crate::value_combination::{
    lemma_canonical_combination_unique, sorted_by_column, ValueCombination,
};
use vstd::prelude::*;

verus! {

impl DataBlock {
    /// Every attribute of the combination occurs in row `i`.
    pub open spec fn combo_from_row(&self, i: int, c: Seq<(int, Seq<char>)>) -> bool {
        forall|x: (int, Seq<char>)| #[trigger] c.contains(x) ==> self.has_attr(i, x.0, x.1)
    }

    /// How many rows below `n` carry every attribute of the combination.
    pub open spec fn combo_row_count_upto(&self, c: Seq<(int, Seq<char>)>, n: int) -> int
        decreases n,
    {
        if n <= 0 {
            0
        } else {
            self.combo_row_count_upto(c, n - 1) + (if self.combo_from_row(n - 1, c) {
                1int
            } else {
                0int
            })
        }
    }

    /// When no row below `n` carries the combination, its row count is
    /// zero.
    pub proof fn lemma_combo_row_count_absent(&self, c: Seq<(int, Seq<char>)>, n: int)
        requires
            forall|i: int| 0 <= i < n ==> !#[trigger] self.combo_from_row(i, c),
        ensures
            self.combo_row_count_upto(c, n) == 0,
        decreases n,
    {
        if n > 0 {
            self.lemma_combo_row_count_absent(c, n - 1);
        }
    }

    /// A row that carries the combination makes its row count positive.
    pub proof fn lemma_combo_row_count_at_least_one(&self, c: Seq<(int, Seq<char>)>, ri: int, n: int)
        requires
            0 <= ri < n,
            self.combo_from_row(ri, c),
        ensures
            self.combo_row_count_upto(c, n) >= 1,
        decreases n,
    {
        if ri < n - 1 {
            self.lemma_combo_row_count_at_least_one(c, ri, n - 1);
        }
        assert(self.combo_row_count_upto(c, n - 1) >= 0) by {
            self.lemma_combo_row_count_nonneg(c, n - 1);
        }
    }

    /// Row counts are never negative.
    pub proof fn lemma_combo_row_count_nonneg(&self, c: Seq<(int, Seq<char>)>, n: int)
        ensures
            self.combo_row_count_upto(c, n) >= 0,
        decreases n,
    {
        if n > 0 {
            self.lemma_combo_row_count_nonneg(c, n - 1);
        }
    }

    /// The combination row count is the carrying count of the stored
    /// rows.
    pub proof fn lemma_row_count_is_carrying(&self, c: Seq<(int, Seq<char>)>, n: int)
        requires
            0 <= n <= self.num_rows(),
        ensures
            self.combo_row_count_upto(c, n) == carrying_count(
                self.records@.take(n),
                self.num_columns(),
                c,
            ),
        decreases n,
    {
        if n > 0 {
            self.lemma_row_count_is_carrying(c, n - 1);
            let t = self.records@.take(n);
            assert(t.drop_last() =~= self.records@.take(n - 1));
            assert(t.last() == self.records@[n - 1]);
            assert(self.combo_from_row(n - 1, c) == record_carries(
                self.records@[n - 1],
                self.num_columns(),
                c,
            )) by {
                if self.combo_from_row(n - 1, c) {
                    assert forall|x: (int, Seq<char>)| #[trigger] c.contains(x) implies 0 <= x.0
                        < self.num_columns() && x.1.len() > 0 && self.records@[n
                        - 1].values@[x.0]@ == x.1 by {
                        assert(self.has_attr(n - 1, x.0, x.1));
                    }
                }
                if record_carries(self.records@[n - 1], self.num_columns(), c) {
                    assert forall|x: (int, Seq<char>)| #[trigger] c.contains(x)
                        implies self.has_attr(n - 1, x.0, x.1) by {
                        assert(self.records@[n - 1].values@[x.0]@ == x.1);
                    }
                }
            }
        }
    }
}

/// Aggregate counting is row-order independent: two data blocks holding
/// the same rows in any order, over the same column count, give every
/// combination the same row count — and so, through the aggregator's
/// exact counting contract, the same aggregate counts.
pub proof fn lemma_aggregate_counts_order_independent(
    db1: DataBlock,
    db2: DataBlock,
    c: Seq<(int, Seq<char>)>,
)
    requires
        db1.records@.to_multiset() == db2.records@.to_multiset(),
        db1.num_columns() == db2.num_columns(),
    ensures
        db1.combo_row_count_upto(c, db1.num_rows()) == db2.combo_row_count_upto(
            c,
            db2.num_rows(),
        ),
{
    db1.lemma_row_count_is_carrying(c, db1.num_rows());
    db2.lemma_row_count_is_carrying(c, db2.num_rows());
    assert(db1.records@.take(db1.num_rows()) =~= db1.records@);
    assert(db2.records@.take(db2.num_rows()) =~= db2.records@);
    lemma_carrying_count_permutation(db1.records@, db2.records@, db1.num_columns(), c);
}

/// Whether one stored row carries every attribute of the combination,
/// judged against a column count.
pub open spec fn record_carries(
    rec: DataBlockRecord,
    ncols: int,
    c: Seq<(int, Seq<char>)>,
) -> bool {
    forall|x: (int, Seq<char>)| #[trigger] c.contains(x)
        ==> 0 <= x.0 < ncols && x.1.len() > 0 && rec.values@[x.0]@ == x.1
}

/// How many of the given rows carry every attribute of the combination.
pub open spec fn carrying_count(
    recs: Seq<DataBlockRecord>,
    ncols: int,
    c: Seq<(int, Seq<char>)>,
) -> int
    decreases recs.len(),
{
    if recs.len() == 0 {
        0
    } else {
        carrying_count(recs.drop_last(), ncols, c) + (if record_carries(recs.last(), ncols, c) {
            1int
        } else {
            0int
        })
    }
}

/// Removing one row takes exactly that row's contribution out of the
/// carrying count.
pub proof fn lemma_carrying_count_remove(
    recs: Seq<DataBlockRecord>,
    ncols: int,
    c: Seq<(int, Seq<char>)>,
    j: int,
)
    requires
        0 <= j < recs.len(),
    ensures
        carrying_count(recs.remove(j), ncols, c) == carrying_count(recs, ncols, c) - (
        if record_carries(recs[j], ncols, c) {
            1int
        } else {
            0int
        }),
    decreases recs.len(),
{
    if j == recs.len() - 1 {
        assert(recs.remove(j) =~= recs.drop_last());
    } else {
        assert(recs.remove(j).drop_last() =~= recs.drop_last().remove(j));
        assert(recs.remove(j).last() == recs.last());
        assert(recs.drop_last()[j] == recs[j]);
        lemma_carrying_count_remove(recs.drop_last(), ncols, c, j);
    }
}

/// The carrying count only depends on which rows are there, not on
/// their order.
pub proof fn lemma_carrying_count_permutation(
    s1: Seq<DataBlockRecord>,
    s2: Seq<DataBlockRecord>,
    ncols: int,
    c: Seq<(int, Seq<char>)>,
)
    requires
        s1.to_multiset() == s2.to_multiset(),
    ensures
        carrying_count(s1, ncols, c) == carrying_count(s2, ncols, c),
    decreases s1.len(),
{
    s1.to_multiset_ensures();
    s2.to_multiset_ensures();
    if s1.len() == 0 {
        assert(s2.len() == 0);
    } else {
        let x = s1.last();
        assert(s1.contains(x));
        assert(s1.to_multiset().count(x) > 0);
        assert(s2.to_multiset().count(x) > 0);
        assert(s2.contains(x));
        let j = choose|j: int| 0 <= j < s2.len() && s2[j] == x;
        let t1 = s1.drop_last();
        let t2 = s2.remove(j);
        assert(s1.remove(s1.len() - 1) =~= t1);
        assert(t1.to_multiset() =~= s1.to_multiset().remove(x));
        assert(t2.to_multiset() =~= s2.to_multiset().remove(x));
        lemma_carrying_count_permutation(t1, t2, ncols, c);
        lemma_carrying_count_remove(s2, ncols, c, j);
    }
}

/// Makes sure the combination has an entry, inserting one with a zero
/// count when it is absent; existing entries are untouched.
fn insert_combo_key(m: &mut Vec<(ValueCombination, usize)>, c: &ValueCombination)
    requires
        distinct_combo_keys(old(m)@),
    ensures
        distinct_combo_keys(final(m)@),
        final(m)@.len() == old(m)@.len() || final(m)@.len() == old(m)@.len() + 1,
        forall|k: int| 0 <= k < old(m)@.len() ==> #[trigger] final(m)@[k] == old(m)@[k],
        final(m)@.len() == old(m)@.len() + 1
            ==> final(m)@.last().0@ == c@ && final(m)@.last().1 == 0,
        exists|k: int| 0 <= k < final(m)@.len() && (#[trigger] final(m)@[k]).0@ == c@,
{
    let ghost m0 = old(m)@;
    let mut i: usize = 0;
    while i < m.len()
        invariant
            0 <= i <= m@.len(),
            m@ == m0,
            m0 == old(m)@,
            distinct_combo_keys(m0),
            forall|k: int| 0 <= k < i ==> (#[trigger] m0[k]).0@ != c@,
        decreases m@.len() - i,
    {
        if m[i].0.eq_combination(c) {
            proof {
                assert(m@[i as int].0@ == c@);
            }
            return ;
        }
        i += 1;
    }
    let cloned = c.clone_combination();
    m.push((cloned, 0));
    proof {
        let n = m0.len() as int;
        assert(forall|k: int| 0 <= k < n ==> #[trigger] m@[k] == m0[k]);
        assert(m@[n].0@ == c@);
        assert forall|k1: int, k2: int| #![trigger m@[k1], m@[k2]]
            0 <= k1 < k2 < m@.len() implies m@[k1].0@ != m@[k2].0@ by {
            if k2 < n {
                assert(m0[k1].0@ != m0[k2].0@);
            } else {
                assert(m0[k1].0@ != c@);
            }
        }
    }
}

/// Whether row `i` carries every attribute of the combination.
fn row_contains_combo(db: &DataBlock, i: usize, c: &ValueCombination) -> (r: bool)
    requires
        db.wf(),
        i < db.num_rows(),
    ensures
        r == db.combo_from_row(i as int, c@),
{
    let mut k: usize = 0;
    while k < c.attrs.len()
        invariant
            0 <= k <= c.attrs@.len(),
            db.wf(),
            i < db.num_rows(),
            forall|l: int| #![trigger c@[l]] 0 <= l < k ==> db.has_attr(i as int, c@[l].0, c@[l].1),
        decreases c.attrs@.len() - k,
    {
        let a = &c.attrs[k];
        proof {
            assert(a@ == c@[k as int]);
            assert(c@.contains(c@[k as int]));
        }
        if a.column_index >= db.headers.len() {
            return false;
        }
        let row = &db.records[i];
        let v = &row.values[a.column_index];
        proof {
            assert(v@ == db.cell(i as int, a@.0));
        }
        if a.value.as_str().is_empty() {
            return false;
        }
        if !(*v == a.value) {
            return false;
        }
        k += 1;
    }
    proof {
        assert forall|x: (int, Seq<char>)| #[trigger] c@.contains(x) implies db.has_attr(
            i as int,
            x.0,
            x.1,
        ) by {
            let l = choose|l: int| 0 <= l < c@.len() && c@[l] == x;
        }
    }
    true
}

/// Counts the rows of the block that carry every attribute of the
/// combination.
fn count_rows_with_combo(db: &DataBlock, c: &ValueCombination) -> (r: usize)
    requires
        db.wf(),
    ensures
        r as int == db.combo_row_count_upto(c@, db.num_rows()),
        r <= db.num_rows(),
{
    let mut cnt: usize = 0;
    let mut i: usize = 0;
    while i < db.records.len()
        invariant
            0 <= i <= db.records@.len(),
            db.wf(),
            cnt as int == db.combo_row_count_upto(c@, i as int),
            cnt <= i,
        decreases db.records@.len() - i,
    {
        if row_contains_combo(db, i, c) {
            cnt += 1;
        }
        i += 1;
    }
    cnt
}

/// Walks the data block rows and counts how many times each attribute
/// combination of length one up to the reporting length occurs.
pub struct Aggregator {
    pub data_block: DataBlock,
}

impl Aggregator {
    pub fn new(data_block: DataBlock) -> (r: Aggregator)
        ensures
            r.data_block == data_block,
    {
        Aggregator { data_block }
    }

    /// Counts the attribute combinations of the dataset, up to the
    /// clamped reporting length: for every canonical combination of one
    /// to that many attributes, the recorded count is exactly the number
    /// of rows carrying all of its attributes, and only combinations that
    /// occur are recorded. The row bound keeps every count within the
    /// signed budget range used downstream. Progress is reported as the
    /// fraction of rows walked.
    pub fn aggregate<T: ReportProgress>(
        &self,
        reporting_length: usize,
        progress_reporter: &mut Option<T>,
    ) -> (r: AggregatedData)
        requires
            self.data_block.wf(),
            self.data_block.num_rows() <= isize::MAX,
        ensures
            r.wf(),
            r.reporting_length == self.data_block.spec_normalize_reporting_length(
                reporting_length as int,
            ),
            forall|comb: Seq<(int, Seq<char>)>| #![trigger sorted_by_column(comb)]
                sorted_by_column(comb) && 1 <= comb.len() <= r.reporting_length
                    ==> combo_count(r.aggregates_count@, comb)
                    == self.data_block.combo_row_count_upto(comb, self.data_block.num_rows()),
            forall|k: int| 0 <= k < r.aggregates_count@.len() ==> {
                &&& (#[trigger] r.aggregates_count@[k]).1 >= 1
                &&& exists|i: int|
                    0 <= i < self.data_block.num_rows() && self.data_block.combo_from_row(
                        i,
                        r.aggregates_count@[k].0@,
                    )
            },
    {
        let db = &self.data_block;
        let length = db.normalize_reporting_length(reporting_length);
        let mut aggregates_count: Vec<(ValueCombination, usize)> = Vec::new();
        let n_rows = db.records.len();
        let mut i: usize = 0;
        while i < n_rows
            invariant
                0 <= i <= n_rows,
                n_rows == db.records@.len(),
                db == &self.data_block,
                db.wf(),
                length as int == db.spec_normalize_reporting_length(reporting_length as int),
                distinct_combo_keys(aggregates_count@),
                forall|k: int| 0 <= k < aggregates_count@.len() ==> {
                    &&& (#[trigger] aggregates_count@[k]).0.wf()
                    &&& 1 <= aggregates_count@[k].0@.len() <= length
                    &&& exists|ri: int|
                        0 <= ri < db.num_rows() && db.combo_from_row(
                            ri,
                            aggregates_count@[k].0@,
                        )
                },
                forall|comb: Seq<(int, Seq<char>)>| #![trigger sorted_by_column(comb)]
                    sorted_by_column(comb) && 1 <= comb.len() <= length && (exists|ri: int|
                        0 <= ri < i && #[trigger] db.combo_from_row(ri, comb))
                        ==> exists|k: int|
                        0 <= k < aggregates_count@.len() && (#[trigger] aggregates_count@[k]).0@
                            == comb,
                progress_reporter.is_some() == old(progress_reporter).is_some(),
            decreases n_rows - i,
        {
            let row = &db.records[i];
            let mut attrs: Vec<DataBlockValue> = Vec::new();
            let mut c: usize = 0;
            while c < row.values.len()
                invariant
                    0 <= c <= row.values@.len(),
                    db.wf(),
                    0 <= i < db.num_rows(),
                    row == &db.records@[i as int],
                    row.values@.len() == db.num_columns(),
                    forall|l: int| 0 <= l < attrs@.len() ==> {
                        &&& 0 <= (#[trigger] attrs@[l])@.0 < c
                        &&& db.has_attr(i as int, attrs@[l]@.0, attrs@[l]@.1)
                    },
                    forall|l1: int, l2: int| #![trigger attrs@[l1], attrs@[l2]]
                        0 <= l1 < l2 < attrs@.len() ==> attrs@[l1]@.0 < attrs@[l2]@.0,
                    forall|cc: int|
                        0 <= cc < c && (#[trigger] db.cell(i as int, cc)).len() > 0
                            ==> exists|l: int|
                            0 <= l < attrs@.len() && (#[trigger] attrs@[l])@ == (
                            cc,
                            db.cell(i as int, cc),
                            ),
                decreases row.values@.len() - c,
            {
                let v = &row.values[c];
                proof {
                    assert(v@ == db.cell(i as int, c as int));
                }
                let ghost pre_attrs = attrs@;
                if !v.as_str().is_empty() {
                    attrs.push(DataBlockValue::new(c, v.clone()));
                    proof {
                        assert(attrs@.last()@ == (c as int, db.cell(i as int, c as int)));
                        assert forall|cc: int|
                            0 <= cc < c + 1 && (#[trigger] db.cell(i as int, cc)).len() > 0
                            implies exists|l: int|
                                0 <= l < attrs@.len() && (#[trigger] attrs@[l])@ == (
                                cc,
                                db.cell(i as int, cc),
                                ) by {
                            if cc < c as int {
                                let l = choose|l: int|
                                    0 <= l < pre_attrs.len() && (#[trigger] pre_attrs[l])@ == (
                                    cc,
                                    db.cell(i as int, cc),
                                    );
                                assert(attrs@[l]@ == (cc, db.cell(i as int, cc)));
                            } else {
                                assert(attrs@[attrs@.len() - 1]@ == (cc, db.cell(i as int, cc)));
                            }
                        }
                    }
                }
                c += 1;
            }
            proof {
                if attrs@.len() > 0 {
                    assert(attrs@[0]@.0 < db.num_columns());
                }
            }
            let mut subs: Vec<ValueCombination> = Vec::new();
            let mut j: usize = 0;
            proof {
                assert forall|comb: Seq<(int, Seq<char>)>| #![trigger sorted_by_column(comb)]
                    sorted_by_column(comb) && 1 <= comb.len() <= length && (forall|
                        x: (int, Seq<char>),
                    |
                        #[trigger] comb.contains(x) ==> exists|l: int|
                            0 <= l < 0 && (#[trigger] attrs@[l])@ == x)
                    implies exists|t: int|
                        0 <= t < subs@.len() && (#[trigger] subs@[t])@ == comb by {
                    assert(comb.contains(comb[0]));
                    assert(false);
                }
            }
            while j < attrs.len()
                invariant
                    0 <= j <= attrs@.len(),
                    db.wf(),
                    0 <= i < db.num_rows(),
                    length as int == db.spec_normalize_reporting_length(
                        reporting_length as int,
                    ),
                    attrs@.len() > 0 ==> length >= 1,
                    forall|l: int| 0 <= l < attrs@.len() ==> {
                        &&& 0 <= (#[trigger] attrs@[l])@.0 < db.num_columns()
                        &&& db.has_attr(i as int, attrs@[l]@.0, attrs@[l]@.1)
                    },
                    forall|l1: int, l2: int| #![trigger attrs@[l1], attrs@[l2]]
                        0 <= l1 < l2 < attrs@.len() ==> attrs@[l1]@.0 < attrs@[l2]@.0,
                    forall|t: int| 0 <= t < subs@.len() ==> {
                        &&& (#[trigger] subs@[t]).wf()
                        &&& 1 <= subs@[t]@.len() <= length
                        &&& db.combo_from_row(i as int, subs@[t]@)
                    },
                    forall|t: int, x: (int, Seq<char>)|
                        0 <= t < subs@.len() && (#[trigger] subs@[t]@.contains(x))
                            ==> exists|l: int| 0 <= l < j && (#[trigger] attrs@[l])@ == x,
                    forall|comb: Seq<(int, Seq<char>)>| #![trigger sorted_by_column(comb)]
                        sorted_by_column(comb) && 1 <= comb.len() <= length && (forall|
                            x: (int, Seq<char>),
                        |
                            #[trigger] comb.contains(x) ==> exists|l: int|
                                0 <= l < j && (#[trigger] attrs@[l])@ == x)
                            ==> exists|t: int|
                            0 <= t < subs@.len() && (#[trigger] subs@[t])@ == comb,
                decreases attrs@.len() - j,
            {
                let attr = &attrs[j];
                let ghost base_subs = subs@;
                let base_len = subs.len();
                let mut t: usize = 0;
                while t < base_len
                    invariant
                        0 <= t <= base_len <= subs@.len(),
                        base_subs.len() == base_len,
                        db.wf(),
                        0 <= i < db.num_rows(),
                        0 <= j < attrs@.len(),
                        attr == &attrs@[j as int],
                        length >= 1,
                        db.has_attr(i as int, attr@.0, attr@.1),
                        forall|l: int| 0 <= l < attrs@.len() ==> {
                            &&& 0 <= (#[trigger] attrs@[l])@.0 < db.num_columns()
                            &&& db.has_attr(i as int, attrs@[l]@.0, attrs@[l]@.1)
                        },
                        forall|l1: int, l2: int| #![trigger attrs@[l1], attrs@[l2]]
                            0 <= l1 < l2 < attrs@.len() ==> attrs@[l1]@.0 < attrs@[l2]@.0,
                        forall|u: int| 0 <= u < base_len ==> #[trigger] subs@[u] == base_subs[u],
                        forall|u: int| 0 <= u < subs@.len() ==> {
                            &&& (#[trigger] subs@[u]).wf()
                            &&& 1 <= subs@[u]@.len() <= length
                            &&& db.combo_from_row(i as int, subs@[u]@)
                        },
                        forall|u: int, x: (int, Seq<char>)|
                            0 <= u < base_len && (#[trigger] subs@[u]@.contains(x))
                                ==> exists|l: int| 0 <= l < j && (#[trigger] attrs@[l])@ == x,
                        forall|u: int, x: (int, Seq<char>)|
                            base_len <= u < subs@.len() && (#[trigger] subs@[u]@.contains(x))
                                ==> exists|l: int|
                                0 <= l < j + 1 && (#[trigger] attrs@[l])@ == x,
                        forall|t0: int|
                            0 <= t0 < t && (#[trigger] base_subs[t0])@.len() < length
                                ==> exists|u: int|
                                0 <= u < subs@.len() && (#[trigger] subs@[u])@
                                    == insert_by_column(base_subs[t0]@, attr@),
                    decreases base_len - t,
                {
                    if subs[t].len() < length {
                        proof {
                            if subs@[t as int].has_column(attr@.0) {
                                let tv = subs@[t as int]@;
                                let xi = choose|xi: int|
                                    0 <= xi < tv.len() && (#[trigger] tv[xi]).0 == attr@.0;
                                assert(tv.contains(tv[xi]));
                                let l = choose|l: int|
                                    0 <= l < j && (#[trigger] attrs@[l])@ == tv[xi];
                                assert(attrs@[l]@.0 < attrs@[j as int]@.0);
                            }
                        }
                        let ext = subs[t].extended_with(attr);
                        proof {
                            lemma_insert_by_column_props(subs@[t as int]@, attr@);
                            lemma_canonical_combination_unique(
                                ext@,
                                insert_by_column(subs@[t as int]@, attr@),
                            );
                            assert forall|x: (int, Seq<char>)| #[trigger] ext@.contains(x)
                                implies (db.has_attr(i as int, x.0, x.1) && exists|l: int|
                                0 <= l < j + 1 && (#[trigger] attrs@[l])@ == x) by {
                                if x == attr@ {
                                    assert(attrs@[j as int]@ == x);
                                } else {
                                    assert(subs@[t as int]@.contains(x));
                                    let l = choose|l: int|
                                        0 <= l < j && (#[trigger] attrs@[l])@ == x;
                                }
                            }
                        }
                        let ghost pre_subs = subs@;
                        subs.push(ext);
                        proof {
                            assert(base_subs[t as int] == pre_subs[t as int]);
                            assert(subs@[subs@.len() - 1]@ == insert_by_column(
                                base_subs[t as int]@,
                                attr@,
                            ));
                            assert forall|t0: int|
                                0 <= t0 < t + 1 && (#[trigger] base_subs[t0])@.len() < length
                                implies exists|u: int|
                                    0 <= u < subs@.len() && (#[trigger] subs@[u])@
                                        == insert_by_column(base_subs[t0]@, attr@) by {
                                if t0 < t as int {
                                    let u = choose|u: int|
                                        0 <= u < pre_subs.len() && (#[trigger] pre_subs[u])@
                                            == insert_by_column(base_subs[t0]@, attr@);
                                    assert(subs@[u]@ == insert_by_column(
                                        base_subs[t0]@,
                                        attr@,
                                    ));
                                }
                            }
                        }
                    } else {
                        proof {
                            assert(base_subs[t as int] == subs@[t as int]);
                        }
                    }
                    t += 1;
                }
                let single = attr.clone_value();
                let mut one: Vec<DataBlockValue> = Vec::new();
                one.push(single);
                let single_combo = ValueCombination { attrs: one };
                proof {
                    assert(single_combo@ =~= seq![attr@]);
                    assert forall|x: (int, Seq<char>)| #[trigger] single_combo@.contains(x)
                        implies (db.has_attr(i as int, x.0, x.1) && exists|l: int|
                        0 <= l < j + 1 && (#[trigger] attrs@[l])@ == x) by {
                        let xi = choose|xi: int|
                            0 <= xi < single_combo@.len() && single_combo@[xi] == x;
                        assert(x == attr@);
                        assert(attrs@[j as int]@ == x);
                    }
                }
                let ghost pre_single = subs@;
                subs.push(single_combo);
                proof {
                    let ghost single_idx = subs@.len() - 1;
                    assert(subs@[single_idx]@ =~= seq![attr@]);
                    assert forall|t0: int|
                        0 <= t0 < base_len && (#[trigger] base_subs[t0])@.len() < length
                        implies exists|u: int|
                            0 <= u < subs@.len() && (#[trigger] subs@[u])@ == insert_by_column(
                            base_subs[t0]@,
                            attr@,
                        ) by {
                        let u = choose|u: int|
                            0 <= u < pre_single.len() && (#[trigger] pre_single[u])@
                                == insert_by_column(base_subs[t0]@, attr@);
                        assert(subs@[u]@ == insert_by_column(base_subs[t0]@, attr@));
                    }
                    // every canonical combination drawn from the first j + 1
                    // attributes is now present: without the new attribute it
                    // was present before; with it, it extends a present
                    // combination, or is the new single
                    assert forall|comb: Seq<(int, Seq<char>)>| #![trigger sorted_by_column(comb)]
                        sorted_by_column(comb) && 1 <= comb.len() <= length && (forall|
                            x: (int, Seq<char>),
                        |
                            #[trigger] comb.contains(x) ==> exists|l: int|
                                0 <= l < j + 1 && (#[trigger] attrs@[l])@ == x)
                        implies exists|t2: int|
                            0 <= t2 < subs@.len() && (#[trigger] subs@[t2])@ == comb by {
                        if comb.contains(attr@) {
                            if comb.len() == 1 {
                                let xi = choose|xi: int|
                                    0 <= xi < comb.len() && comb[xi] == attr@;
                                assert(comb =~= seq![attr@]);
                                assert(subs@[single_idx]@ == comb);
                            } else {
                                // the new attribute carries the largest
                                // column, so it is the last entry of `comb`
                                assert forall|x: (int, Seq<char>)|
                                    #[trigger] comb.contains(x) && x != attr@ implies x.0
                                    < attr@.0 by {
                                    let l = choose|l: int|
                                        0 <= l < j + 1 && (#[trigger] attrs@[l])@ == x;
                                    if l == j as int {
                                        assert(x == attr@);
                                    } else {
                                        assert(attrs@[l]@.0 < attrs@[j as int]@.0);
                                    }
                                }
                                let n1 = comb.len() - 1;
                                assert(comb.contains(comb[n1]));
                                assert(comb[n1] == attr@) by {
                                    let xi = choose|xi: int|
                                        0 <= xi < comb.len() && comb[xi] == attr@;
                                    if xi < n1 {
                                        assert(comb[xi].0 < comb[n1].0);
                                        assert(comb.contains(comb[n1]));
                                        assert(comb[n1] != attr@);
                                        assert(comb[n1].0 < attr@.0);
                                        assert(false);
                                    }
                                }
                                let head = comb.drop_last();
                                assert(head.len() == n1);
                                assert(forall|l: int|
                                    0 <= l < n1 ==> #[trigger] head[l] == comb[l]);
                                assert(sorted_by_column(head)) by {
                                    assert forall|l1: int, l2: int|
                                        #![trigger head[l1], head[l2]]
                                        0 <= l1 < l2 < head.len() implies head[l1].0
                                        < head[l2].0 by {
                                        assert(comb[l1].0 < comb[l2].0);
                                    }
                                }
                                assert forall|x: (int, Seq<char>)| #[trigger] head.contains(x)
                                    implies (x.0 < attr@.0 && exists|l: int|
                                    0 <= l < j && (#[trigger] attrs@[l])@ == x) by {
                                    let hl = choose|hl: int|
                                        0 <= hl < head.len() && head[hl] == x;
                                    assert(comb[hl] == x);
                                    assert(comb.contains(x));
                                    assert(comb[hl].0 < comb[n1].0);
                                    assert(x != attr@);
                                    let l = choose|l: int|
                                        0 <= l < j + 1 && (#[trigger] attrs@[l])@ == x;
                                    if l == j as int {
                                        assert(x == attr@);
                                        assert(false);
                                    }
                                }
                                assert(comb.contains(comb[0]));
                                assert(head.contains(head[0])) by {
                                    assert(head[0] == comb[0]);
                                }
                                assert(1 <= head.len() < length);
                                // the head stood in the generation before this
                                // attribute was folded in
                                assert(exists|t0: int|
                                    0 <= t0 < base_subs.len() && (#[trigger] base_subs[t0])@
                                        == head);
                                let t0 = choose|t0: int|
                                    0 <= t0 < base_subs.len() && (#[trigger] base_subs[t0])@
                                        == head;
                                assert(base_subs[t0]@.len() < length);
                                let u = choose|u: int|
                                    0 <= u < subs@.len() && (#[trigger] subs@[u])@
                                        == insert_by_column(base_subs[t0]@, attr@);
                                assert forall|l: int|
                                    0 <= l < head.len() implies (#[trigger] head[l]).0
                                    < attr@.0 by {
                                    assert(head.contains(head[l]));
                                }
                                lemma_insert_by_column_append(head, attr@);
                                assert(head.push(attr@) =~= comb);
                                assert(subs@[u]@ == comb);
                            }
                        } else {
                            assert forall|x: (int, Seq<char>)| #[trigger] comb.contains(x)
                                implies exists|l: int|
                                0 <= l < j && (#[trigger] attrs@[l])@ == x by {
                                let l = choose|l: int|
                                    0 <= l < j + 1 && (#[trigger] attrs@[l])@ == x;
                                if l == j as int {
                                    assert(x == attr@);
                                    assert(false);
                                }
                            }
                            assert(exists|t2: int|
                                0 <= t2 < base_subs.len() && (#[trigger] base_subs[t2])@
                                    == comb);
                            let t2 = choose|t2: int|
                                0 <= t2 < base_subs.len() && (#[trigger] base_subs[t2])@
                                    == comb;
                            assert(subs@[t2]@ == comb);
                        }
                    }
                }
                j += 1;
            }
            let ghost pre_agg = aggregates_count@;
            let mut t: usize = 0;
            while t < subs.len()
                invariant
                    0 <= t <= subs@.len(),
                    db.wf(),
                    0 <= i < db.num_rows(),
                    forall|u: int| 0 <= u < subs@.len() ==> {
                        &&& (#[trigger] subs@[u]).wf()
                        &&& 1 <= subs@[u]@.len() <= length
                        &&& db.combo_from_row(i as int, subs@[u]@)
                    },
                    distinct_combo_keys(aggregates_count@),
                    pre_agg.len() <= aggregates_count@.len(),
                    forall|k: int|
                        0 <= k < pre_agg.len() ==> #[trigger] aggregates_count@[k] == pre_agg[k],
                    forall|k: int| 0 <= k < aggregates_count@.len() ==> {
                        &&& (#[trigger] aggregates_count@[k]).0.wf()
                        &&& 1 <= aggregates_count@[k].0@.len() <= length
                        &&& exists|ri: int|
                            0 <= ri < db.num_rows() && db.combo_from_row(
                                ri,
                                aggregates_count@[k].0@,
                            )
                    },
                    forall|t0: int|
                        0 <= t0 < t ==> exists|k: int|
                            0 <= k < aggregates_count@.len() && (
                            #[trigger] aggregates_count@[k]).0@ == (#[trigger] subs@[t0])@,
                decreases subs@.len() - t,
            {
                let ghost step_agg = aggregates_count@;
                insert_combo_key(&mut aggregates_count, &subs[t]);
                proof {
                    if aggregates_count@.len() == step_agg.len() + 1 {
                        let n = step_agg.len() as int;
                        assert(aggregates_count@[n].0@ == subs@[t as int]@);
                        assert(aggregates_count@[n].0.wf());
                    }
                    assert forall|t0: int| 0 <= t0 < t + 1 implies exists|k: int|
                        0 <= k < aggregates_count@.len() && (#[trigger] aggregates_count@[k]).0@
                            == (#[trigger] subs@[t0])@ by {
                        if t0 < t as int {
                            let sv = subs@[t0]@;
                            let k = choose|k: int|
                                0 <= k < step_agg.len() && (#[trigger] step_agg[k]).0@ == sv;
                            assert(aggregates_count@[k] == step_agg[k]);
                        }
                    }
                }
                t += 1;
            }
            proof {
                // a combination carried by this row is drawn from its
                // collected attributes, hence generated, hence now a key
                assert forall|comb: Seq<(int, Seq<char>)>| #![trigger sorted_by_column(comb)]
                    sorted_by_column(comb) && 1 <= comb.len() <= length && (exists|ri: int|
                        0 <= ri < i + 1 && #[trigger] db.combo_from_row(ri, comb))
                    implies exists|k: int|
                        0 <= k < aggregates_count@.len() && (#[trigger] aggregates_count@[k]).0@
                            == comb by {
                    let ri = choose|ri: int|
                        0 <= ri < i + 1 && #[trigger] db.combo_from_row(ri, comb);
                    if ri < i as int {
                        let k = choose|k: int|
                            0 <= k < pre_agg.len() && (#[trigger] pre_agg[k]).0@ == comb;
                        assert(aggregates_count@[k] == pre_agg[k]);
                    } else {
                        assert forall|x: (int, Seq<char>)| #[trigger] comb.contains(x)
                            implies exists|l: int|
                            0 <= l < attrs@.len() && (#[trigger] attrs@[l])@ == x by {
                            assert(db.has_attr(i as int, x.0, x.1));
                            assert(db.cell(i as int, x.0).len() > 0);
                            let l = choose|l: int|
                                0 <= l < attrs@.len() && (#[trigger] attrs@[l])@ == (
                                x.0,
                                db.cell(i as int, x.0),
                                );
                        }
                        let t2 = choose|t2: int|
                            0 <= t2 < subs@.len() && (#[trigger] subs@[t2])@ == comb;
                        let k = choose|k: int|
                            0 <= k < aggregates_count@.len() && (
                            #[trigger] aggregates_count@[k]).0@ == subs@[t2]@;
                    }
                }
            }
            i += 1;
            match progress_reporter {
                Some(reporter) => {
                    let pct = calc_percentage(i, n_rows);
                    reporter.report(pct);
                },
                None => {},
            }
        }
        let ghost keys0 = aggregates_count@;
        let mut k: usize = 0;
        while k < aggregates_count.len()
            invariant
                0 <= k <= aggregates_count@.len(),
                db == &self.data_block,
                db.wf(),
                n_rows == db.records@.len(),
                n_rows <= isize::MAX,
                aggregates_count@.len() == keys0.len(),
                forall|l: int|
                    0 <= l < aggregates_count@.len() ==> (#[trigger] aggregates_count@[l]).0
                        == keys0[l].0,
                distinct_combo_keys(keys0),
                forall|l: int| 0 <= l < keys0.len() ==> {
                    &&& (#[trigger] keys0[l]).0.wf()
                    &&& 1 <= keys0[l].0@.len() <= length
                    &&& exists|ri: int|
                        0 <= ri < db.num_rows() && db.combo_from_row(ri, keys0[l].0@)
                },
                forall|comb: Seq<(int, Seq<char>)>| #![trigger sorted_by_column(comb)]
                    sorted_by_column(comb) && 1 <= comb.len() <= length && (exists|ri: int|
                        0 <= ri < n_rows && #[trigger] db.combo_from_row(ri, comb))
                        ==> exists|l: int|
                        0 <= l < keys0.len() && (#[trigger] keys0[l]).0@ == comb,
                forall|l: int|
                    0 <= l < k ==> (#[trigger] aggregates_count@[l]).1 as int
                        == db.combo_row_count_upto(aggregates_count@[l].0@, n_rows as int),
                forall|l: int| 0 <= l < k ==> (#[trigger] aggregates_count@[l]).1 <= n_rows,
            decreases aggregates_count@.len() - k,
        {
            let cloned = aggregates_count[k].0.clone_combination();
            let cnt = count_rows_with_combo(db, &cloned);
            let ghost pre = aggregates_count@;
            let entry = aggregates_count.remove(k);
            aggregates_count.insert(k, (entry.0, cnt));
            proof {
                assert(aggregates_count@ =~= pre.update(k as int, (pre[k as int].0, cnt)));
            }
            k += 1;
        }
        proof {
            assert forall|k1: int, k2: int| #![trigger aggregates_count@[k1], aggregates_count@[k2]]
                0 <= k1 < k2 < aggregates_count@.len()
                implies aggregates_count@[k1].0@ != aggregates_count@[k2].0@ by {
                assert(keys0[k1].0@ != keys0[k2].0@);
            }
        }
        let r = AggregatedData { aggregates_count, reporting_length: length };
        proof {
            let m = r.aggregates_count@;
            assert forall|l: int| 0 <= l < m.len() implies {
                &&& (#[trigger] m[l]).0.wf()
                &&& 1 <= m[l].0@.len() <= length
                &&& m[l].1 <= isize::MAX
                &&& m[l].1 >= 1
                &&& exists|ri: int|
                    0 <= ri < db.num_rows() && db.combo_from_row(ri, m[l].0@)
            } by {
                assert(m[l].0 == keys0[l].0);
                assert(m[l].1 as int == db.combo_row_count_upto(m[l].0@, n_rows as int));
                assert(m[l].1 <= n_rows);
                let ri = choose|ri: int|
                    0 <= ri < db.num_rows() && db.combo_from_row(ri, keys0[l].0@);
                db.lemma_combo_row_count_at_least_one(m[l].0@, ri, n_rows as int);
            }
            assert forall|comb: Seq<(int, Seq<char>)>| #![trigger sorted_by_column(comb)]
                sorted_by_column(comb) && 1 <= comb.len() <= length
                implies combo_count(m, comb) == db.combo_row_count_upto(comb, n_rows as int) by {
                if exists|l: int| 0 <= l < m.len() && (#[trigger] m[l]).0@ == comb {
                    let l = choose|l: int| 0 <= l < m.len() && (#[trigger] m[l]).0@ == comb;
                    lemma_combo_count_at(m, l);
                } else {
                    assert forall|ri: int| 0 <= ri < n_rows implies !#[trigger] db.combo_from_row(
                        ri,
                        comb,
                    ) by {
                        if db.combo_from_row(ri, comb) {
                            let l = choose|l: int|
                                0 <= l < keys0.len() && (#[trigger] keys0[l]).0@ == comb;
                            assert(m[l].0@ == comb);
                        }
                    }
                    db.lemma_combo_row_count_absent(comb, n_rows as int);
                }
            }
        }
        r
    }
}

} // verus!

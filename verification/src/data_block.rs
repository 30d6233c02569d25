use vstd::prelude::*;

verus! {

/// One cell value tagged with the index of the column it came from.
/// Two values are the same attribute exactly when both the column index
/// and the text agree, so identical text in different columns stays
/// distinct.
pub struct DataBlockValue {
    pub column_index: usize,
    pub value: String,
}

impl View for DataBlockValue {
    type V = (int, Seq<char>);

    open spec fn view(&self) -> (int, Seq<char>) {
        (self.column_index as int, self.value@)
    }
}

impl DataBlockValue {
    /// Builds the attribute for `value` at column `column_index`.
    pub fn new(column_index: usize, value: String) -> (r: DataBlockValue)
        ensures
            r@ == (column_index as int, value@),
    {
        DataBlockValue { column_index, value }
    }

    /// Copy of this attribute that stands for the same (column, text) pair.
    pub fn clone_value(&self) -> (r: DataBlockValue)
        ensures
            r@ == self@,
    {
        DataBlockValue { column_index: self.column_index, value: self.value.clone() }
    }

    /// Attribute equality: same column and same text.
    pub fn eq_value(&self, other: &DataBlockValue) -> (r: bool)
        ensures
            r == (self@ == other@),
    {
        self.column_index == other.column_index && self.value == other.value
    }
}

/// Largest multiple of `resolution` not exceeding `n`: counts are only
/// ever released in resolution-sized buckets.
pub open spec fn protected_count(n: int, resolution: int) -> int {
    (n / resolution) * resolution
}

/// Views of a list of row indices.
pub open spec fn rows_view(s: Seq<usize>) -> Seq<int> {
    s.map(|i: int, x: usize| x as int)
}

/// One ingested row: one value per column, where an empty string stands
/// for an empty cell.
#[derive(Debug)]
pub struct DataBlockRecord {
    pub values: Vec<String>,
}

/// Why a data block could not be built from the ingested rows.
#[derive(Debug, PartialEq, Eq)]
pub enum DataBlockCreationError {
    /// Some row does not have exactly one value per column header.
    NonRectangularRecord,
    /// Two column headers carry the same name.
    DuplicateColumnName,
}

/// Immutable representation of the ingested dataset: column headers and
/// the ordered rows. Everything downstream reads it and never mutates it.
#[derive(Debug)]
pub struct DataBlock {
    pub headers: Vec<String>,
    pub records: Vec<DataBlockRecord>,
}

impl DataBlock {
    /// Every row has exactly one value per column.
    pub open spec fn rectangular(headers: Seq<String>, records: Seq<DataBlockRecord>) -> bool {
        forall|i: int|
            0 <= i < records.len() ==> (#[trigger] records[i]).values@.len() == headers.len()
    }

    /// No two column headers share a name.
    pub open spec fn headers_distinct(headers: Seq<String>) -> bool {
        forall|i: int, j: int| 0 <= i < j < headers.len() ==> headers[i]@ != headers[j]@
    }

    pub open spec fn wf(&self) -> bool {
        &&& Self::rectangular(self.headers@, self.records@)
        &&& Self::headers_distinct(self.headers@)
    }

    pub open spec fn num_columns(&self) -> int {
        self.headers@.len() as int
    }

    pub open spec fn num_rows(&self) -> int {
        self.records@.len() as int
    }

    /// Text held at `(row, col)`.
    pub open spec fn cell(&self, row: int, col: int) -> Seq<char> {
        self.records@[row].values@[col]@
    }

    /// The attribute `(col, val)` occurs in `row`: the cell text matches
    /// and is not the empty value.
    pub open spec fn has_attr(&self, row: int, col: int, val: Seq<char>) -> bool {
        &&& 0 <= row < self.num_rows()
        &&& 0 <= col < self.num_columns()
        &&& val.len() > 0
        &&& self.cell(row, col) == val
    }

    /// Builds a data block, rejecting non-rectangular rows and duplicate
    /// column names before anything downstream can read them.
    pub fn new(headers: Vec<String>, records: Vec<DataBlockRecord>) -> (r: Result<
        DataBlock,
        DataBlockCreationError,
    >)
        ensures
            match r {
                Ok(db) => {
                    &&& db.headers == headers
                    &&& db.records == records
                    &&& db.wf()
                },
                Err(e) => {
                    ||| (!Self::rectangular(headers@, records@) && e
                        == DataBlockCreationError::NonRectangularRecord)
                    ||| (Self::rectangular(headers@, records@) && !Self::headers_distinct(
                        headers@,
                    ) && e == DataBlockCreationError::DuplicateColumnName)
                },
            },
    {
        let n_cols = headers.len();
        let mut i: usize = 0;
        while i < records.len()
            invariant
                0 <= i <= records@.len(),
                n_cols == headers@.len(),
                forall|k: int| 0 <= k < i ==> (#[trigger] records@[k]).values@.len() == n_cols,
            decreases records@.len() - i,
        {
            if records[i].values.len() != n_cols {
                return Err(DataBlockCreationError::NonRectangularRecord);
            }
            i += 1;
        }
        let mut a: usize = 0;
        while a < headers.len()
            invariant
                0 <= a <= headers@.len(),
                Self::rectangular(headers@, records@),
                forall|k: int, l: int| 0 <= k < l < headers@.len() && k < a ==> headers@[k]@ != headers@[l]@,
            decreases headers@.len() - a,
        {
            let mut b: usize = a + 1;
            while b < headers.len()
                invariant
                    0 <= a < b <= headers@.len(),
                    Self::rectangular(headers@, records@),
                    forall|l: int| a < l < b ==> headers@[a as int]@ != headers@[l]@,
                decreases headers@.len() - b,
            {
                if headers[a] == headers[b] {
                    proof {
                        assert(headers@[a as int]@ == headers@[b as int]@);
                        assert(!Self::headers_distinct(headers@));
                        assert(Self::rectangular(headers@, records@));
                    }
                    return Err(DataBlockCreationError::DuplicateColumnName);
                }
                b += 1;
            }
            a += 1;
        }
        Ok(DataBlock { headers, records })
    }

    /// Number of ingested rows.
    pub fn number_of_records(&self) -> (r: usize)
        ensures
            r == self.num_rows(),
    {
        self.records.len()
    }

    /// Row count clamped down to a multiple of the reporting resolution.
    pub open spec fn spec_protected_number_of_records(&self, resolution: int) -> int {
        protected_count(self.num_rows(), resolution)
    }

    /// Largest multiple of `resolution` that does not exceed the row
    /// count, so that counts are only ever reported in resolution-sized
    /// buckets.
    pub fn protected_number_of_records(&self, resolution: usize) -> (r: usize)
        requires
            resolution >= 1,
        ensures
            r == self.spec_protected_number_of_records(resolution as int),
            r % resolution == 0,
            r <= self.num_rows(),
    {
        let n = self.records.len();
        let q = n / resolution;
        proof {
            vstd::arithmetic::div_mod::lemma_fundamental_div_mod(n as int, resolution as int);
            vstd::arithmetic::div_mod::lemma_mod_bound(n as int, resolution as int);
            assert((q * resolution) % (resolution as int) == 0) by (nonlinear_arith)
                requires
                    resolution >= 1,
            ;
            vstd::arithmetic::mul::lemma_mul_is_commutative(q as int, resolution as int);
            assert((q as int) * (resolution as int) <= n as int);
        }
        q * resolution
    }

    /// Requested combination-length ceiling clamped to the column count.
    pub open spec fn spec_normalize_reporting_length(&self, reporting_length: int) -> int {
        if reporting_length == 0 || reporting_length > self.num_columns() {
            self.num_columns()
        } else {
            reporting_length
        }
    }

    /// Clamps the requested combination length: zero or anything above
    /// the column count becomes the column count.
    pub fn normalize_reporting_length(&self, reporting_length: usize) -> (r: usize)
        ensures
            r == self.spec_normalize_reporting_length(reporting_length as int),
    {
        if reporting_length == 0 || reporting_length > self.headers.len() {
            self.headers.len()
        } else {
            reporting_length
        }
    }

    /// Copy of this data block holding the same headers and rows.
    pub fn clone_block(&self) -> (r: DataBlock)
        ensures
            r.headers@.len() == self.headers@.len(),
            forall|k: int|
                0 <= k < r.headers@.len() ==> (#[trigger] r.headers@[k])@ == self.headers@[k]@,
            r.records@.len() == self.records@.len(),
            forall|i: int|
                0 <= i < r.records@.len() ==> (#[trigger] r.records@[i]).values@.len()
                    == self.records@[i].values@.len(),
            forall|i: int, c: int|
                #![trigger r.records@[i].values@[c]]
                0 <= i < r.records@.len() && 0 <= c < r.records@[i].values@.len()
                    ==> r.records@[i].values@[c]@ == self.records@[i].values@[c]@,
            self.wf() ==> r.wf(),
    {
        let mut headers: Vec<String> = Vec::new();
        let mut k: usize = 0;
        while k < self.headers.len()
            invariant
                0 <= k <= self.headers@.len(),
                headers@.len() == k,
                forall|l: int|
                    0 <= l < k ==> (#[trigger] headers@[l])@ == self.headers@[l]@,
            decreases self.headers@.len() - k,
        {
            headers.push(self.headers[k].clone());
            k += 1;
        }
        let mut records: Vec<DataBlockRecord> = Vec::new();
        let mut i: usize = 0;
        while i < self.records.len()
            invariant
                0 <= i <= self.records@.len(),
                records@.len() == i,
                forall|l: int|
                    0 <= l < i ==> (#[trigger] records@[l]).values@.len()
                        == self.records@[l].values@.len(),
                forall|l: int, c: int|
                    #![trigger records@[l].values@[c]]
                    0 <= l < i && 0 <= c < records@[l].values@.len() ==> records@[l].values@[c]@
                        == self.records@[l].values@[c]@,
            decreases self.records@.len() - i,
        {
            let row = &self.records[i];
            let mut values: Vec<String> = Vec::new();
            let mut c: usize = 0;
            while c < row.values.len()
                invariant
                    0 <= c <= row.values@.len(),
                    values@.len() == c,
                    forall|l: int|
                        0 <= l < c ==> (#[trigger] values@[l])@ == row.values@[l]@,
                decreases row.values@.len() - c,
            {
                values.push(row.values[c].clone());
                c += 1;
            }
            records.push(DataBlockRecord { values });
            i += 1;
        }
        let r = DataBlock { headers, records };
        proof {
            if self.wf() {
                assert forall|a: int, b: int|
                    0 <= a < b < r.headers@.len() implies r.headers@[a]@ != r.headers@[b]@ by {
                    assert(self.headers@[a]@ != self.headers@[b]@);
                }
                assert forall|l: int|
                    0 <= l < r.records@.len() implies (#[trigger] r.records@[l]).values@.len()
                        == r.headers@.len() by {
                    assert(self.records@[l].values@.len() == self.headers@.len());
                }
            }
        }
        r
    }

    /// Row indices below `n` whose cell in column `col` holds exactly
    /// `val`, in increasing order. With `val` empty it lists the rows
    /// whose cell is empty.
    pub open spec fn matching_rows_upto(&self, col: int, val: Seq<char>, n: int) -> Seq<int>
        decreases n,
    {
        if n <= 0 {
            Seq::empty()
        } else if self.cell(n - 1, col) == val {
            self.matching_rows_upto(col, val, n - 1).push(n - 1)
        } else {
            self.matching_rows_upto(col, val, n - 1)
        }
    }

    /// An entry of a per-column attribute map is correct: its key sits in
    /// the column and its row list is exactly the matching rows.
    pub open spec fn attr_rows_entry_ok(&self, col: int, e: (DataBlockValue, Vec<usize>)) -> bool {
        &&& e.0@.0 == col
        &&& e.0@.1.len() > 0
        &&& rows_view(e.1@) == self.matching_rows_upto(col, e.0@.1, self.num_rows())
        &&& e.1@.len() > 0
    }

    /// A per-column attribute map is correct: distinct keys, every entry
    /// correct, and an entry for every non-empty cell of the column.
    pub open spec fn attr_rows_map_ok(&self, col: int, m: Seq<(DataBlockValue, Vec<usize>)>) -> bool {
        &&& forall|k1: int, k2: int| #![trigger m[k1], m[k2]]
            0 <= k1 < k2 < m.len() ==> m[k1].0@ != m[k2].0@
        &&& forall|k: int| 0 <= k < m.len() ==> self.attr_rows_entry_ok(col, #[trigger] m[k])
        &&& forall|i: int|
            0 <= i < self.num_rows() && (#[trigger] self.cell(i, col)).len() > 0 ==> exists|k: int|
                0 <= k < m.len() && (#[trigger] m[k]).0@.1 == self.cell(i, col)
    }

    /// Attribute map of one column: each non-empty value of the column
    /// with the sorted list of rows it occurs in.
    pub fn calc_attr_rows_for_column(&self, col: usize) -> (r: Vec<(DataBlockValue, Vec<usize>)>)
        requires
            self.wf(),
            col < self.num_columns(),
        ensures
            self.attr_rows_map_ok(col as int, r@),
    {
        let mut r: Vec<(DataBlockValue, Vec<usize>)> = Vec::new();
        let mut i: usize = 0;
        while i < self.records.len()
            invariant
                0 <= i <= self.records@.len(),
                self.wf(),
                col < self.num_columns(),
                forall|k1: int, k2: int| #![trigger r@[k1], r@[k2]]
                    0 <= k1 < k2 < r@.len() ==> r@[k1].0@ != r@[k2].0@,
                forall|k: int| 0 <= k < r@.len() ==> {
                    &&& (#[trigger] r@[k]).0@.0 == col
                    &&& r@[k].0@.1.len() > 0
                    &&& rows_view(r@[k].1@) == self.matching_rows_upto(col as int, r@[k].0@.1, i as int)
                    &&& r@[k].1@.len() > 0
                },
                forall|j: int|
                    0 <= j < i && (#[trigger] self.cell(j, col as int)).len() > 0 ==> exists|k: int|
                        0 <= k < r@.len() && (#[trigger] r@[k]).0@.1 == self.cell(j, col as int),
            decreases self.records@.len() - i,
        {
            let row = &self.records[i];
            let v = &row.values[col];
            proof {
                assert(v@ == self.cell(i as int, col as int));
            }
            if !v.as_str().is_empty() {
                let mut k: usize = 0;
                let mut found = false;
                while k < r.len() && !found
                    invariant
                        0 <= k <= r@.len(),
                        v@ == self.cell(i as int, col as int),
                        !found ==> forall|l: int| 0 <= l < k ==> (#[trigger] r@[l]).0@.1 != v@,
                        found ==> k < r@.len() && r@[k as int].0@.1 == v@,
                    decreases r@.len() - k + (if found { 0int } else { 1int }),
                {
                    if r[k].0.value == *v {
                        found = true;
                    } else {
                        k += 1;
                    }
                }
                let ghost pre = r@;
                if found {
                    let mut entry = r.remove(k);
                    entry.1.push(i);
                    r.insert(k, entry);
                    proof {
                        assert(r@ =~= pre.update(
                            k as int,
                            (pre[k as int].0, r@[k as int].1),
                        ));
                        assert(r@[k as int].1@ =~= pre[k as int].1@.push(i));
                        assert forall|l: int| 0 <= l < r@.len() implies {
                            &&& (#[trigger] r@[l]).0@.0 == col
                            &&& r@[l].0@.1.len() > 0
                            &&& rows_view(r@[l].1@) == self.matching_rows_upto(
                                col as int,
                                r@[l].0@.1,
                                i + 1,
                            )
                        } by {
                            if l == k as int {
                                assert(rows_view(r@[l].1@) =~= rows_view(pre[l].1@).push(
                                    i as int,
                                ));
                            } else {
                                assert(r@[l] == pre[l]);
                                assert(r@[l].0@.1 != v@);
                            }
                        }
                        assert forall|j: int|
                            0 <= j < i + 1 && (#[trigger] self.cell(j, col as int)).len() > 0
                            implies exists|k2: int|
                                0 <= k2 < r@.len() && (#[trigger] r@[k2]).0@.1 == self.cell(
                                    j,
                                    col as int,
                                ) by {
                            if j < i {
                                let k2 = choose|k2: int|
                                    0 <= k2 < pre.len() && (#[trigger] pre[k2]).0@.1
                                        == self.cell(j, col as int);
                                assert(r@[k2].0@.1 == self.cell(j, col as int));
                            } else {
                                assert(r@[k as int].0@.1 == self.cell(j, col as int));
                            }
                        }
                    }
                } else {
                    let mut rows: Vec<usize> = Vec::new();
                    rows.push(i);
                    r.push((DataBlockValue::new(col, v.clone()), rows));
                    proof {
                        let n = pre.len() as int;
                        assert(r@.len() == n + 1);
                        assert(forall|l: int| 0 <= l < n ==> #[trigger] r@[l] == pre[l]);
                        assert(r@[n].0@ == (col as int, v@));
                        assert(rows_view(r@[n].1@) =~= Seq::<int>::empty().push(i as int));
                        self.lemma_matching_rows_absent(col as int, v@, i as int);
                        assert forall|l: int| 0 <= l < r@.len() implies {
                            &&& (#[trigger] r@[l]).0@.0 == col
                            &&& r@[l].0@.1.len() > 0
                            &&& rows_view(r@[l].1@) == self.matching_rows_upto(
                                col as int,
                                r@[l].0@.1,
                                i + 1,
                            )
                        } by {
                            if l < n {
                                assert(r@[l].0@.1 != v@);
                            } else {
                                assert(self.matching_rows_upto(col as int, v@, i as int)
                                    =~= Seq::<int>::empty());
                            }
                        }
                        assert forall|j: int|
                            0 <= j < i + 1 && (#[trigger] self.cell(j, col as int)).len() > 0
                            implies exists|k2: int|
                                0 <= k2 < r@.len() && (#[trigger] r@[k2]).0@.1 == self.cell(
                                    j,
                                    col as int,
                                ) by {
                            if j < i {
                                let k2 = choose|k2: int|
                                    0 <= k2 < pre.len() && (#[trigger] pre[k2]).0@.1
                                        == self.cell(j, col as int);
                                assert(r@[k2].0@.1 == self.cell(j, col as int));
                            } else {
                                assert(r@[n].0@.1 == self.cell(j, col as int));
                            }
                        }
                    }
                }
            } else {
                proof {
                    assert(v@.len() == 0);
                    assert forall|k: int| 0 <= k < r@.len() implies rows_view(
                        (#[trigger] r@[k]).1@,
                    ) == self.matching_rows_upto(col as int, r@[k].0@.1, i + 1) by {
                        assert(self.cell(i as int, col as int) != r@[k].0@.1);
                    }
                }
            }
            i += 1;
        }
        r
    }

    /// When no row below `n` holds `val` in the column, the matching row
    /// list is empty.
    pub proof fn lemma_matching_rows_absent(&self, col: int, val: Seq<char>, n: int)
        requires
            forall|j: int| 0 <= j < n ==> #[trigger] self.cell(j, col) != val,
        ensures
            self.matching_rows_upto(col, val, n) =~= Seq::<int>::empty(),
        decreases n,
    {
        if n > 0 {
            self.lemma_matching_rows_absent(col, val, n - 1);
        }
    }

    /// Per-column attribute maps, without entries for empty cells.
    pub fn calc_attr_rows_by_column_with_no_empty_values(&self) -> (r: Vec<
        (usize, Vec<(DataBlockValue, Vec<usize>)>),
    >)
        requires
            self.wf(),
        ensures
            r@.len() == self.num_columns(),
            forall|c: int|
                0 <= c < r@.len() ==> (#[trigger] r@[c]).0 == c && self.attr_rows_map_ok(
                    c,
                    r@[c].1@,
                ),
    {
        let mut r: Vec<(usize, Vec<(DataBlockValue, Vec<usize>)>)> = Vec::new();
        let mut c: usize = 0;
        while c < self.headers.len()
            invariant
                0 <= c <= self.num_columns(),
                self.wf(),
                r@.len() == c,
                forall|l: int|
                    0 <= l < c ==> (#[trigger] r@[l]).0 == l && self.attr_rows_map_ok(
                        l,
                        r@[l].1@,
                    ),
            decreases self.num_columns() - c,
        {
            let m = self.calc_attr_rows_for_column(c);
            r.push((c, m));
            c += 1;
        }
        r
    }

    /// Attribute map of one column including the designated empty value:
    /// the ordinary attribute entries, then one entry under the empty key
    /// listing exactly the rows whose cell in the column is empty.
    pub fn calc_attr_rows_for_column_with_empty_values(&self, col: usize, empty_value: &String)
        -> (r: Vec<(DataBlockValue, Vec<usize>)>)
        requires
            self.wf(),
            col < self.num_columns(),
            empty_value@ == Seq::<char>::empty(),
        ensures
            r@.len() >= 1,
            self.attr_rows_map_ok(col as int, r@.take(r@.len() - 1)),
            r@.last().0@ == (col as int, Seq::<char>::empty()),
            rows_view(r@.last().1@) == self.matching_rows_upto(
                col as int,
                Seq::<char>::empty(),
                self.num_rows(),
            ),
            forall|k1: int, k2: int| #![trigger r@[k1], r@[k2]]
                0 <= k1 < k2 < r@.len() ==> r@[k1].0@ != r@[k2].0@,
    {
        let mut r = self.calc_attr_rows_for_column(col);
        let ghost attrs_part = r@;
        let mut empty_rows: Vec<usize> = Vec::new();
        let mut i: usize = 0;
        while i < self.records.len()
            invariant
                0 <= i <= self.records@.len(),
                self.wf(),
                col < self.num_columns(),
                rows_view(empty_rows@) == self.matching_rows_upto(
                    col as int,
                    Seq::<char>::empty(),
                    i as int,
                ),
            decreases self.records@.len() - i,
        {
            let row = &self.records[i];
            let v = &row.values[col];
            proof {
                assert(v@ == self.cell(i as int, col as int));
            }
            if v.as_str().is_empty() {
                let ghost pre = empty_rows@;
                empty_rows.push(i);
                proof {
                    assert(self.cell(i as int, col as int) =~= Seq::<char>::empty());
                    assert(rows_view(empty_rows@) =~= rows_view(pre).push(i as int));
                }
            } else {
                proof {
                    assert(self.cell(i as int, col as int) != Seq::<char>::empty());
                }
            }
            i += 1;
        }
        r.push((DataBlockValue::new(col, empty_value.clone()), empty_rows));
        proof {
            assert(r@.take(r@.len() - 1) =~= attrs_part);
            let n = attrs_part.len() as int;
            assert forall|k1: int, k2: int| #![trigger r@[k1], r@[k2]]
                0 <= k1 < k2 < r@.len() implies r@[k1].0@ != r@[k2].0@ by {
                if k2 < n {
                    assert(attrs_part[k1].0@ != attrs_part[k2].0@);
                } else {
                    assert(self.attr_rows_entry_ok(col as int, attrs_part[k1]));
                    assert(r@[k1].0@.1.len() > 0);
                    assert(r@[k2].0@.1.len() == 0);
                }
            }
        }
        r
    }

    /// Per-column attribute maps, each with the extra empty-value entry.
    pub fn calc_attr_rows_by_column_with_empty_values(&self, empty_value: &String) -> (r: Vec<
        (usize, Vec<(DataBlockValue, Vec<usize>)>),
    >)
        requires
            self.wf(),
            empty_value@ == Seq::<char>::empty(),
        ensures
            r@.len() == self.num_columns(),
            forall|c: int|
                0 <= c < r@.len() ==> {
                    &&& (#[trigger] r@[c]).0 == c
                    &&& r@[c].1@.len() >= 1
                    &&& self.attr_rows_map_ok(c, r@[c].1@.take(r@[c].1@.len() - 1))
                    &&& r@[c].1@.last().0@ == (c, Seq::<char>::empty())
                    &&& rows_view(r@[c].1@.last().1@) == self.matching_rows_upto(
                        c,
                        Seq::<char>::empty(),
                        self.num_rows(),
                    )
                },
    {
        let mut r: Vec<(usize, Vec<(DataBlockValue, Vec<usize>)>)> = Vec::new();
        let mut c: usize = 0;
        while c < self.headers.len()
            invariant
                0 <= c <= self.num_columns(),
                self.wf(),
                empty_value@ == Seq::<char>::empty(),
                r@.len() == c,
                forall|l: int|
                    0 <= l < c ==> {
                        &&& (#[trigger] r@[l]).0 == l
                        &&& r@[l].1@.len() >= 1
                        &&& self.attr_rows_map_ok(l, r@[l].1@.take(r@[l].1@.len() - 1))
                        &&& r@[l].1@.last().0@ == (l, Seq::<char>::empty())
                        &&& rows_view(r@[l].1@.last().1@) == self.matching_rows_upto(
                            l,
                            Seq::<char>::empty(),
                            self.num_rows(),
                        )
                    },
            decreases self.num_columns() - c,
        {
            let m = self.calc_attr_rows_for_column_with_empty_values(c, empty_value);
            r.push((c, m));
            c += 1;
        }
        r
    }

    /// Attribute map over the whole dataset: every attribute of every
    /// column with the sorted list of rows it occurs in.
    pub fn calc_attr_rows(&self) -> (r: Vec<(DataBlockValue, Vec<usize>)>)
        requires
            self.wf(),
        ensures
            forall|k1: int, k2: int| #![trigger r@[k1], r@[k2]]
                0 <= k1 < k2 < r@.len() ==> r@[k1].0@ != r@[k2].0@,
            forall|k: int|
                0 <= k < r@.len() ==> 0 <= (#[trigger] r@[k]).0@.0 < self.num_columns()
                    && self.attr_rows_entry_ok(r@[k].0@.0, r@[k]),
            forall|i: int, c: int|
                #![trigger self.cell(i, c)]
                0 <= i < self.num_rows() && 0 <= c < self.num_columns() && self.cell(i, c).len()
                    > 0 ==> exists|k: int|
                    0 <= k < r@.len() && (#[trigger] r@[k]).0@ == (c, self.cell(i, c)),
    {
        let mut r: Vec<(DataBlockValue, Vec<usize>)> = Vec::new();
        let mut c: usize = 0;
        while c < self.headers.len()
            invariant
                0 <= c <= self.num_columns(),
                self.wf(),
                forall|k1: int, k2: int| #![trigger r@[k1], r@[k2]]
                    0 <= k1 < k2 < r@.len() ==> r@[k1].0@ != r@[k2].0@,
                forall|k: int|
                    0 <= k < r@.len() ==> 0 <= (#[trigger] r@[k]).0@.0 < c
                        && self.attr_rows_entry_ok(r@[k].0@.0, r@[k]),
                forall|i: int, cc: int|
                    #![trigger self.cell(i, cc)]
                    0 <= i < self.num_rows() && 0 <= cc < c && self.cell(i, cc).len() > 0
                        ==> exists|k: int|
                        0 <= k < r@.len() && (#[trigger] r@[k]).0@ == (cc, self.cell(i, cc)),
            decreases self.num_columns() - c,
        {
            let mut part = self.calc_attr_rows_for_column(c);
            let ghost pre = r@;
            let ghost part_view = part@;
            r.append(&mut part);
            proof {
                let n = pre.len() as int;
                assert(r@ =~= pre + part_view);
                assert(forall|l: int| 0 <= l < n ==> #[trigger] r@[l] == pre[l]);
                assert(forall|l: int|
                    n <= l < r@.len() ==> #[trigger] r@[l] == part_view[l - n]);
                assert forall|k1: int, k2: int| #![trigger r@[k1], r@[k2]]
                    0 <= k1 < k2 < r@.len() implies r@[k1].0@ != r@[k2].0@ by {
                    if k1 < n && k2 >= n {
                        assert(self.attr_rows_entry_ok(
                            c as int,
                            part_view[k2 - n],
                        ));
                        assert(r@[k1].0@.0 < c as int);
                        assert(r@[k2].0@.0 == c as int);
                    } else if k1 >= n {
                        assert(part_view[k1 - n].0@ != part_view[k2 - n].0@);
                    } else {
                        assert(pre[k1].0@ != pre[k2].0@);
                    }
                }
                assert forall|i: int, cc: int|
                    #![trigger self.cell(i, cc)]
                    0 <= i < self.num_rows() && 0 <= cc < c + 1 && self.cell(i, cc).len() > 0
                    implies exists|k: int|
                        0 <= k < r@.len() && (#[trigger] r@[k]).0@ == (cc, self.cell(i, cc)) by {
                    if cc < c as int {
                        let k = choose|k: int|
                            0 <= k < pre.len() && (#[trigger] pre[k]).0@ == (
                                cc,
                                self.cell(i, cc),
                            );
                        assert(r@[k].0@ == (cc, self.cell(i, cc)));
                    } else {
                        let k2 = choose|k2: int|
                            0 <= k2 < part_view.len() && (#[trigger] part_view[k2]).0@.1
                                == self.cell(i, cc);
                        assert(self.attr_rows_entry_ok(c as int, part_view[k2]));
                        assert(r@[n + k2].0@ == (cc, self.cell(i, cc)));
                    }
                }
            }
            c += 1;
        }
        r
    }

    /// Every listed row holds the attribute and every row holding it is
    /// listed: membership in a matching-row list means exactly that the
    /// cell matches.
    pub proof fn lemma_matching_rows_membership(&self, col: int, val: Seq<char>, n: int, i: int)
        ensures
            self.matching_rows_upto(col, val, n).contains(i) <==> (0 <= i < n && self.cell(
                i,
                col,
            ) == val),
        decreases n,
    {
        if n > 0 {
            self.lemma_matching_rows_membership(col, val, n - 1, i);
            let s = self.matching_rows_upto(col, val, n - 1);
            let t = self.matching_rows_upto(col, val, n);
            if self.cell(n - 1, col) == val {
                assert(t == s.push(n - 1));
                if t.contains(i) {
                    let k = choose|k: int| 0 <= k < t.len() && t[k] == i;
                    if k < s.len() {
                        assert(s[k] == i);
                        assert(s.contains(i));
                    }
                }
                if s.contains(i) {
                    let k = choose|k: int| 0 <= k < s.len() && s[k] == i;
                    assert(t[k] == i);
                }
                if i == n - 1 {
                    assert(t[s.len() as int] == i);
                }
            }
        }
    }

    /// The rows listed for an attribute are strictly increasing.
    pub proof fn lemma_matching_rows_sorted(&self, col: int, val: Seq<char>, n: int)
        ensures
            forall|a: int, b: int|
                #![trigger self.matching_rows_upto(col, val, n)[a], self.matching_rows_upto(col, val, n)[b]]
                0 <= a < b < self.matching_rows_upto(col, val, n).len()
                    ==> self.matching_rows_upto(col, val, n)[a] < self.matching_rows_upto(
                    col,
                    val,
                    n,
                )[b],
            forall|a: int|
                0 <= a < self.matching_rows_upto(col, val, n).len()
                    ==> 0 <= #[trigger] self.matching_rows_upto(col, val, n)[a] < n,
        decreases n,
    {
        if n > 0 {
            self.lemma_matching_rows_sorted(col, val, n - 1);
            let s = self.matching_rows_upto(col, val, n - 1);
            let t = self.matching_rows_upto(col, val, n);
            assert forall|a: int|
                0 <= a < t.len() implies 0 <= #[trigger] t[a] < n by {
                if self.cell(n - 1, col) == val {
                    assert(t == s.push(n - 1));
                    if a < s.len() {
                        assert(t[a] == s[a]);
                    } else {
                        assert(t[a] == n - 1);
                    }
                } else {
                    assert(t == s);
                }
            }
            assert forall|a: int, b: int|
                #![trigger t[a], t[b]]
                0 <= a < b < t.len() implies t[a] < t[b] by {
                if self.cell(n - 1, col) == val {
                    assert(t == s.push(n - 1));
                    assert(t[a] == s[a]);
                    if b < s.len() {
                        assert(t[b] == s[b]);
                    } else {
                        assert(t[b] == n - 1);
                        assert(0 <= s[a] < n - 1);
                    }
                } else {
                    assert(t == s);
                }
            }
        }
    }

    /// Attribute-row indexing is consistent: an attribute's row list in
    /// a correct per-column map holds a row exactly when that row carries
    /// the attribute, and every attribute of every row has its entry.
    pub proof fn lemma_attr_rows_consistent(
        &self,
        col: int,
        m: Seq<(DataBlockValue, Vec<usize>)>,
        k: int,
        i: int,
    )
        requires
            0 <= col < self.num_columns(),
            self.attr_rows_map_ok(col, m),
            0 <= k < m.len(),
        ensures
            rows_view(m[k].1@).contains(i) <==> self.has_attr(i, col, m[k].0@.1),
    {
        assert(self.attr_rows_entry_ok(col, m[k]));
        self.lemma_matching_rows_membership(col, m[k].0@.1, self.num_rows(), i);
        if self.has_attr(i, col, m[k].0@.1) {
            assert(self.cell(i, col) == m[k].0@.1);
        }
        if rows_view(m[k].1@).contains(i) {
            assert(m[k].0@.1.len() > 0);
        }
    }

    /// The empty-value entry of a column is the complement of its
    /// attribute entries: it lists a row exactly when the cell is empty,
    /// which is exactly when no attribute of the column lists it.
    pub proof fn lemma_empty_rows_complement(&self, col: int, i: int)
        ensures
            self.matching_rows_upto(col, Seq::<char>::empty(), self.num_rows()).contains(i)
                <==> (0 <= i < self.num_rows() && self.cell(i, col).len() == 0),
    {
        self.lemma_matching_rows_membership(col, Seq::<char>::empty(), self.num_rows(), i);
        if 0 <= i < self.num_rows() && self.cell(i, col).len() == 0 {
            assert(self.cell(i, col) =~= Seq::<char>::empty());
        }
    }

    /// Mapping from column name to column index, in header order.
    pub fn calc_column_index_by_name(&self) -> (r: Vec<(String, usize)>)
        ensures
            r@.len() == self.headers@.len(),
            forall|i: int|
                0 <= i < r@.len() ==> (#[trigger] r@[i]).0@ == self.headers@[i]@ && r@[i].1 == i,
    {
        let mut r: Vec<(String, usize)> = Vec::new();
        let mut i: usize = 0;
        while i < self.headers.len()
            invariant
                0 <= i <= self.headers@.len(),
                r@.len() == i,
                forall|k: int|
                    0 <= k < i ==> (#[trigger] r@[k]).0@ == self.headers@[k]@ && r@[k].1 == k,
            decreases self.headers@.len() - i,
        {
            r.push((self.headers[i].clone(), i));
            i += 1;
        }
        r
    }
}

} // verus!

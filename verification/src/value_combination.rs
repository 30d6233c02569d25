use crate::data_block::DataBlockValue;
use vstd::prelude::*;

verus! {

/// Views of a sequence of attributes: each one as its (column, text) pair.
pub open spec fn attr_views(s: Seq<DataBlockValue>) -> Seq<(int, Seq<char>)> {
    s.map(|i: int, v: DataBlockValue| v@)
}

/// The attribute views are strictly increasing by column index, which also
/// means no two of them share a column.
pub open spec fn sorted_by_column(s: Seq<(int, Seq<char>)>) -> bool {
    forall|i: int, j: int| #![trigger s[i], s[j]] 0 <= i < j < s.len() ==> s[i].0 < s[j].0
}

/// Some attribute of the combination view `s` sits in column `col`.
pub open spec fn seq_has_column(s: Seq<(int, Seq<char>)>, col: int) -> bool {
    exists|i: int| #![trigger s[i]] 0 <= i < s.len() && s[i].0 == col
}

/// An order-independent set of attributes, at most one per column, kept in
/// a canonical order sorted by column index so that two combinations built
/// from the same attributes in any order are equal.
pub struct ValueCombination {
    pub attrs: Vec<DataBlockValue>,
}

impl View for ValueCombination {
    type V = Seq<(int, Seq<char>)>;

    open spec fn view(&self) -> Seq<(int, Seq<char>)> {
        attr_views(self.attrs@)
    }
}

impl ValueCombination {
    /// Canonical form: attributes strictly sorted by column index.
    pub open spec fn wf(&self) -> bool {
        sorted_by_column(self@)
    }

    /// Some attribute of this combination sits in column `col`.
    pub open spec fn has_column(&self, col: int) -> bool {
        seq_has_column(self@, col)
    }

    /// The combination with no attributes.
    pub fn empty() -> (r: ValueCombination)
        ensures
            r@ =~= Seq::<(int, Seq<char>)>::empty(),
            r.wf(),
    {
        ValueCombination { attrs: Vec::new() }
    }

    /// Number of attributes combined.
    pub fn len(&self) -> (r: usize)
        ensures
            r == self@.len(),
    {
        self.attrs.len()
    }

    /// Whether some attribute of this combination sits in column `col`.
    pub fn contains_column(&self, col: usize) -> (r: bool)
        ensures
            r == self.has_column(col as int),
    {
        let mut i: usize = 0;
        while i < self.attrs.len()
            invariant
                0 <= i <= self.attrs@.len(),
                forall|k: int| #![trigger self@[k]] 0 <= k < i ==> self@[k].0 != col,
            decreases self.attrs@.len() - i,
        {
            if self.attrs[i].column_index == col {
                proof {
                    assert(self@[i as int].0 == col);
                }
                return true;
            }
            i += 1;
        }
        false
    }

    /// Whether `value` is one of the combined attributes.
    pub fn contains_value(&self, value: &DataBlockValue) -> (r: bool)
        ensures
            r == self@.contains(value@),
    {
        let mut i: usize = 0;
        while i < self.attrs.len()
            invariant
                0 <= i <= self.attrs@.len(),
                forall|k: int| #![trigger self@[k]] 0 <= k < i ==> self@[k] != value@,
            decreases self.attrs@.len() - i,
        {
            if self.attrs[i].eq_value(value) {
                proof {
                    assert(self@[i as int] == value@);
                }
                return true;
            }
            i += 1;
        }
        proof {
            assert(forall|k: int| #![trigger self@[k]] 0 <= k < self@.len() ==> self@[k] != value@);
        }
        false
    }

    /// Combination equality: same attributes in the same canonical order.
    pub fn eq_combination(&self, other: &ValueCombination) -> (r: bool)
        ensures
            r == (self@ == other@),
    {
        if self.attrs.len() != other.attrs.len() {
            return false;
        }
        let mut i: usize = 0;
        while i < self.attrs.len()
            invariant
                0 <= i <= self.attrs@.len(),
                self.attrs@.len() == other.attrs@.len(),
                forall|k: int| #![trigger self@[k]] 0 <= k < i ==> self@[k] == other@[k],
            decreases self.attrs@.len() - i,
        {
            if !self.attrs[i].eq_value(&other.attrs[i]) {
                proof {
                    assert(self@[i as int] != other@[i as int]);
                }
                return false;
            }
            i += 1;
        }
        proof {
            assert(self@ =~= other@);
        }
        true
    }

    /// Copy of this combination standing for the same attribute set.
    pub fn clone_combination(&self) -> (r: ValueCombination)
        ensures
            r@ == self@,
    {
        let mut out: Vec<DataBlockValue> = Vec::new();
        let mut i: usize = 0;
        while i < self.attrs.len()
            invariant
                0 <= i <= self.attrs@.len(),
                out@.len() == i,
                forall|k: int| 0 <= k < i ==> (#[trigger] out@[k])@ == self.attrs@[k]@,
            decreases self.attrs@.len() - i,
        {
            out.push(self.attrs[i].clone_value());
            i += 1;
        }
        let r = ValueCombination { attrs: out };
        proof {
            assert(r@ =~= self@);
        }
        r
    }

    /// This combination extended with one more attribute, re-establishing
    /// the canonical order; the new attribute's column must be free.
    pub fn extended_with(&self, value: &DataBlockValue) -> (r: ValueCombination)
        requires
            self.wf(),
            !self.has_column(value@.0),
        ensures
            r.wf(),
            r@.len() == self@.len() + 1,
            forall|x: (int, Seq<char>)| #![trigger r@.contains(x)]
                r@.contains(x) <==> (self@.contains(x) || x == value@),
            r@.contains(value@),
    {
        let mut out: Vec<DataBlockValue> = Vec::new();
        let mut i: usize = 0;
        while i < self.attrs.len() && self.attrs[i].column_index < value.column_index
            invariant
                0 <= i <= self.attrs@.len(),
                self.wf(),
                !self.has_column(value@.0),
                out@.len() == i,
                forall|k: int| 0 <= k < i ==> (#[trigger] out@[k])@ == self.attrs@[k]@,
                forall|k: int| #![trigger self@[k]] 0 <= k < i ==> self@[k].0 < value@.0,
            decreases self.attrs@.len() - i,
        {
            proof {
                assert(self@[i as int] == self.attrs@[i as int]@);
            }
            out.push(self.attrs[i].clone_value());
            i += 1;
        }
        let ghost pos = i as int;
        proof {
            if pos < self@.len() {
                assert(self@[pos].0 != value@.0);
                assert(self@[pos].0 > value@.0);
            }
        }
        out.push(value.clone_value());
        let mut j: usize = i;
        while j < self.attrs.len()
            invariant
                pos <= j <= self.attrs@.len(),
                0 <= pos <= self.attrs@.len(),
                self.wf(),
                out@.len() == j + 1,
                forall|k: int| 0 <= k < pos ==> (#[trigger] out@[k])@ == self.attrs@[k]@,
                (out@[pos])@ == value@,
                forall|k: int| pos < k <= j ==> (#[trigger] out@[k])@ == self.attrs@[k - 1]@,
            decreases self.attrs@.len() - j,
        {
            out.push(self.attrs[j].clone_value());
            j += 1;
        }
        let r = ValueCombination { attrs: out };
        proof {
            let rv = r@;
            let n = self@.len() as int;
            assert(rv.len() == n + 1);
            assert(forall|k: int| 0 <= k < rv.len() ==> (#[trigger] rv[k]) == out@[k]@);
            assert(forall|k: int| #![trigger self@[k]]
                0 <= k < n ==> self@[k] == self.attrs@[k]@);
            // every element of the result is an old attribute or the new
            // one, and conversely
            assert forall|x: (int, Seq<char>)|
                rv.contains(x) <==> (self@.contains(x) || x == value@) by {
                if rv.contains(x) {
                    let k = choose|k: int| 0 <= k < rv.len() && rv[k] == x;
                    if k < pos {
                        assert(self@[k] == x);
                        assert(self@.contains(x));
                    } else if k == pos {
                        assert(x == value@);
                    } else {
                        assert(self@[k - 1] == x);
                        assert(self@.contains(x));
                    }
                }
                if self@.contains(x) {
                    let k = choose|k: int| 0 <= k < self@.len() && self@[k] == x;
                    if k < pos {
                        assert(rv[k] == x);
                        assert(rv.contains(x));
                    } else {
                        assert(rv[k + 1] == x);
                        assert(rv.contains(x));
                    }
                }
                if x == value@ {
                    assert(rv[pos] == x);
                    assert(rv.contains(x));
                }
            }
            // canonical order is preserved: before `pos` all columns are
            // below the new one, from `pos` on all are above
            assert forall|a: int, b: int| #![trigger rv[a], rv[b]]
                0 <= a < b < rv.len() implies rv[a].0 < rv[b].0 by {
                if b < pos {
                    assert(rv[a] == self@[a] && rv[b] == self@[b]);
                } else if b == pos {
                    assert(rv[a] == self@[a] && rv[b] == value@);
                    assert(self@[a].0 < value@.0);
                } else {
                    assert(rv[b] == self@[b - 1]);
                    assert(pos <= b - 1 < n);
                    assert(self@[pos].0 <= self@[b - 1].0);
                    if a < pos {
                        assert(rv[a] == self@[a]);
                        assert(self@[a].0 < value@.0);
                        assert(value@.0 < self@[pos].0);
                    } else if a == pos {
                        assert(rv[a] == value@);
                        assert(value@.0 < self@[pos].0);
                    } else {
                        assert(rv[a] == self@[a - 1]);
                        assert(self@[a - 1].0 < self@[b - 1].0);
                    }
                }
            }
            assert(rv[pos] == value@);
            assert(rv.contains(value@));
        }
        r
    }

    /// Builds the canonical combination holding exactly the given
    /// attributes, which must come from pairwise distinct columns.
    pub fn new(values: Vec<DataBlockValue>) -> (r: ValueCombination)
        requires
            forall|i: int, j: int| #![trigger values@[i], values@[j]]
                0 <= i < j < values@.len() ==> values@[i]@.0 != values@[j]@.0,
        ensures
            r.wf(),
            r@.len() == values@.len(),
            forall|x: (int, Seq<char>)| #![trigger r@.contains(x)]
                r@.contains(x) <==> attr_views(values@).contains(x),
    {
        let ghost vs = attr_views(values@);
        let mut c = ValueCombination::empty();
        let mut i: usize = 0;
        while i < values.len()
            invariant
                0 <= i <= values@.len(),
                vs == attr_views(values@),
                vs.len() == values@.len(),
                forall|k: int| #![trigger vs[k]] 0 <= k < values@.len() ==> vs[k] == values@[k]@,
                forall|k: int, l: int| #![trigger values@[k], values@[l]]
                    0 <= k < l < values@.len() ==> values@[k]@.0 != values@[l]@.0,
                c.wf(),
                c@.len() == i,
                forall|x: (int, Seq<char>)| #![trigger c@.contains(x)]
                    c@.contains(x) <==> vs.subrange(0, i as int).contains(x),
            decreases values@.len() - i,
        {
            proof {
                // the next value's column is not yet in the combination
                if c.has_column(values@[i as int]@.0) {
                    let k = choose|k: int|
                        0 <= k < c@.len() && c@[k].0 == values@[i as int]@.0;
                    assert(c@.contains(c@[k]));
                    let l = choose|l: int|
                        0 <= l < i && vs.subrange(0, i as int)[l] == c@[k];
                    assert(vs[l] == values@[l]@);
                    assert(values@[l]@.0 == values@[i as int]@.0);
                    assert(false);
                }
            }
            c = c.extended_with(&values[i]);
            proof {
                assert forall|x: (int, Seq<char>)|
                    c@.contains(x) <==> vs.subrange(0, i + 1 as int).contains(x) by {
                    let pre = vs.subrange(0, i as int);
                    let cur = vs.subrange(0, i + 1 as int);
                    assert(cur =~= pre.push(values@[i as int]@));
                    if cur.contains(x) {
                        let k = choose|k: int| 0 <= k < cur.len() && cur[k] == x;
                        if k < i as int {
                            assert(pre[k] == x);
                            assert(pre.contains(x));
                        } else {
                            assert(x == values@[i as int]@);
                        }
                    }
                    if pre.contains(x) {
                        let k = choose|k: int| 0 <= k < pre.len() && pre[k] == x;
                        assert(cur[k] == x);
                    }
                    if x == values@[i as int]@ {
                        assert(cur[i as int] == x);
                    }
                }
            }
            i += 1;
        }
        proof {
            assert(vs.subrange(0, values@.len() as int) =~= vs);
        }
        c
    }
}

/// A well-formed combination never holds two attributes of the same
/// column: the canonical order is strict on column indices.
pub proof fn lemma_one_attribute_per_column(c: Seq<(int, Seq<char>)>, i: int, j: int)
    requires
        sorted_by_column(c),
        0 <= i < c.len(),
        0 <= j < c.len(),
        i != j,
    ensures
        c[i].0 != c[j].0,
{
    if i < j {
        assert(c[i].0 < c[j].0);
    } else {
        assert(c[j].0 < c[i].0);
    }
}

/// The canonical order makes combination identity independent of build
/// order: two well-formed combinations holding the same attributes are
/// equal outright.
pub proof fn lemma_canonical_combination_unique(c1: Seq<(int, Seq<char>)>, c2: Seq<(int, Seq<char>)>)
    requires
        sorted_by_column(c1),
        sorted_by_column(c2),
        forall|x: (int, Seq<char>)| #![trigger c1.contains(x), c2.contains(x)]
            c1.contains(x) <==> c2.contains(x),
    ensures
        c1 == c2,
    decreases c1.len(),
{
    if c1.len() == 0 {
        if c2.len() > 0 {
            assert(c2.contains(c2[0]));
            assert(c1.contains(c2[0]));
            assert(false);
        }
        assert(c1 =~= c2);
    } else {
        assert(c1.contains(c1[0]));
        assert(c2.contains(c1[0]));
        let j = choose|j: int| 0 <= j < c2.len() && c2[j] == c1[0];
        assert(c2.contains(c2[0]));
        assert(c1.contains(c2[0]));
        let i = choose|i: int| 0 <= i < c1.len() && c1[i] == c2[0];
        // the two head attributes must agree: otherwise each head's column
        // would be strictly below the other's
        if j > 0 {
            assert(c2[0].0 < c2[j].0);
        }
        if i > 0 {
            assert(c1[0].0 < c1[i].0);
        }
        assert(c1[0] == c2[0]);
        let t1 = c1.drop_first();
        let t2 = c2.drop_first();
        assert forall|x: (int, Seq<char>)| #![trigger t1.contains(x), t2.contains(x)]
            t1.contains(x) <==> t2.contains(x) by {
            if t1.contains(x) {
                let k = choose|k: int| 0 <= k < t1.len() && t1[k] == x;
                assert(c1[k + 1] == x);
                assert(c1.contains(x));
                assert(c2.contains(x));
                let l = choose|l: int| 0 <= l < c2.len() && c2[l] == x;
                if l == 0 {
                    // x would be the shared head, but heads sit strictly
                    // below every tail attribute by column
                    assert(c1[0].0 < c1[k + 1].0);
                    assert(false);
                }
                assert(t2[l - 1] == x);
            }
            if t2.contains(x) {
                let k = choose|k: int| 0 <= k < t2.len() && t2[k] == x;
                assert(c2[k + 1] == x);
                assert(c2.contains(x));
                assert(c1.contains(x));
                let l = choose|l: int| 0 <= l < c1.len() && c1[l] == x;
                if l == 0 {
                    assert(c2[0].0 < c2[k + 1].0);
                    assert(false);
                }
                assert(t1[l - 1] == x);
            }
        }
        assert(sorted_by_column(t1)) by {
            assert forall|a: int, b: int| #![trigger t1[a], t1[b]]
                0 <= a < b < t1.len() implies t1[a].0 < t1[b].0 by {
                assert(c1[a + 1].0 < c1[b + 1].0);
            }
        }
        assert(sorted_by_column(t2)) by {
            assert forall|a: int, b: int| #![trigger t2[a], t2[b]]
                0 <= a < b < t2.len() implies t2[a].0 < t2[b].0 by {
                assert(c2[a + 1].0 < c2[b + 1].0);
            }
        }
        lemma_canonical_combination_unique(t1, t2);
        assert(c1 =~= c2) by {
            assert(c1.len() == t1.len() + 1);
            assert(c2.len() == t2.len() + 1);
            assert(forall|k: int| #![trigger c1[k]] 1 <= k < c1.len() ==> c1[k] == t1[k - 1]);
            assert(forall|k: int| #![trigger c2[k]] 1 <= k < c2.len() ==> c2[k] == t2[k - 1]);
        }
    }
}

} // verus!

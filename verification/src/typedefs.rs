use crate::data_block::DataBlockValue;
use crate::value_combination::ValueCombination;
use vstd::prelude::*;

verus! {

/// A synthetic record: an unordered attribute set, at most one per column,
/// kept in the same canonical order as any attribute combination.
pub type SynthesizedRecord = ValueCombination;

/// The synthesized output records, in generation order.
pub type SynthesizedRecords = Vec<SynthesizedRecord>;

/// Occurrence count per single attribute.
pub type AttributeCountMap = Vec<(DataBlockValue, usize)>;

/// Remaining budget per attribute: how many more times it may be placed
/// into a synthetic record. Checked before every decrement, so it can be
/// seen to never go negative.
pub type AvailableAttrsMap = Vec<(DataBlockValue, isize)>;

/// Attributes forbidden as the next pick for the record being built.
pub type NotAllowedAttrSet = Vec<DataBlockValue>;

/// The map's keys are pairwise distinct attributes.
pub open spec fn distinct_attr_keys<C>(m: Seq<(DataBlockValue, C)>) -> bool {
    forall|i: int, j: int| #![trigger m[i], m[j]] 0 <= i < j < m.len() ==> m[i].0@ != m[j].0@
}

/// Count held for attribute `a`, or zero when `a` has no entry.
pub open spec fn attr_count<C>(m: Seq<(DataBlockValue, C)>, a: (int, Seq<char>), default: C) -> C {
    if exists|k: int| 0 <= k < m.len() && (#[trigger] m[k]).0@ == a {
        m[choose|k: int| 0 <= k < m.len() && (#[trigger] m[k]).0@ == a].1
    } else {
        default
    }
}

/// With distinct keys, updating one entry's count changes that attribute's
/// count and nothing else.
pub proof fn lemma_attr_count_update<C>(
    m1: Seq<(DataBlockValue, C)>,
    m2: Seq<(DataBlockValue, C)>,
    k: int,
    c: C,
    default: C,
)
    requires
        distinct_attr_keys(m1),
        0 <= k < m1.len(),
        m2 == m1.update(k, (m1[k].0, c)),
    ensures
        distinct_attr_keys(m2),
        attr_count(m2, m1[k].0@, default) == c,
        forall|a: (int, Seq<char>)| a != m1[k].0@
            ==> #[trigger] attr_count(m2, a, default) == attr_count(m1, a, default),
{
    assert(m2.len() == m1.len());
    assert(forall|i: int| 0 <= i < m2.len() && i != k ==> #[trigger] m2[i] == m1[i]);
    assert(m2[k].0 == m1[k].0);
    assert forall|i: int, j: int| #![trigger m2[i], m2[j]]
        0 <= i < j < m2.len() implies m2[i].0@ != m2[j].0@ by {
        assert(m1[i].0@ != m1[j].0@);
        assert(m2[i].0@ == m1[i].0@ && m2[j].0@ == m1[j].0@);
    }
    assert(attr_count(m2, m1[k].0@, default) == c) by {
        assert(m2[k].0@ == m1[k].0@);
        let w = choose|w: int| 0 <= w < m2.len() && (#[trigger] m2[w]).0@ == m1[k].0@;
        assert(m2[w].0@ == m2[k].0@);
        if w != k {
            assert(m2[w].0@ != m2[k].0@);
        }
    }
    assert forall|a: (int, Seq<char>)| a != m1[k].0@ implies
        #[trigger] attr_count(m2, a, default) == attr_count(m1, a, default) by {
        if exists|w: int| 0 <= w < m2.len() && (#[trigger] m2[w]).0@ == a {
            let w = choose|w: int| 0 <= w < m2.len() && (#[trigger] m2[w]).0@ == a;
            assert(w != k);
            assert(m1[w].0@ == a);
            let v = choose|v: int| 0 <= v < m1.len() && (#[trigger] m1[v]).0@ == a;
            assert(v == w || m1[v].0@ != m1[w].0@);
        } else {
            if exists|v: int| 0 <= v < m1.len() && (#[trigger] m1[v]).0@ == a {
                let v = choose|v: int| 0 <= v < m1.len() && (#[trigger] m1[v]).0@ == a;
                assert(v != k);
                assert(m2[v].0@ == a);
            }
        }
    }
}

/// With distinct keys, the entry found at an index carries exactly the
/// count that `attr_count` gives for its key.
pub proof fn lemma_attr_count_at<C>(m: Seq<(DataBlockValue, C)>, k: int, default: C)
    requires
        distinct_attr_keys(m),
        0 <= k < m.len(),
    ensures
        attr_count(m, m[k].0@, default) == m[k].1,
{
    let w = choose|w: int| 0 <= w < m.len() && (#[trigger] m[w]).0@ == m[k].0@;
    if w != k {
        assert(m[w].0@ != m[k].0@);
    }
}

/// Looks an attribute up in a count map, returning zero when absent.
pub fn get_attr_count(m: &AttributeCountMap, a: &DataBlockValue) -> (r: usize)
    requires
        distinct_attr_keys(m@),
    ensures
        r == attr_count(m@, a@, 0usize),
{
    let mut i: usize = 0;
    while i < m.len()
        invariant
            0 <= i <= m@.len(),
            distinct_attr_keys(m@),
            forall|k: int| 0 <= k < i ==> (#[trigger] m@[k]).0@ != a@,
        decreases m@.len() - i,
    {
        if m[i].0.eq_value(a) {
            proof {
                lemma_attr_count_at(m@, i as int, 0usize);
            }
            return m[i].1;
        }
        i += 1;
    }
    proof {
        assert(forall|k: int| 0 <= k < m@.len() ==> (#[trigger] m@[k]).0@ != a@);
    }
    0
}

/// Looks an attribute's remaining budget up, returning zero when absent.
pub fn get_available_count(m: &AvailableAttrsMap, a: &DataBlockValue) -> (r: isize)
    requires
        distinct_attr_keys(m@),
    ensures
        r == attr_count(m@, a@, 0isize),
{
    let mut i: usize = 0;
    while i < m.len()
        invariant
            0 <= i <= m@.len(),
            distinct_attr_keys(m@),
            forall|k: int| 0 <= k < i ==> (#[trigger] m@[k]).0@ != a@,
        decreases m@.len() - i,
    {
        if m[i].0.eq_value(a) {
            proof {
                lemma_attr_count_at(m@, i as int, 0isize);
            }
            return m[i].1;
        }
        i += 1;
    }
    proof {
        assert(forall|k: int| 0 <= k < m@.len() ==> (#[trigger] m@[k]).0@ != a@);
    }
    0
}

/// Takes one unit of budget away from attribute `a`, which must have some
/// budget left; every other attribute's budget is untouched.
pub fn decrement_available(m: &mut AvailableAttrsMap, a: &DataBlockValue)
    requires
        distinct_attr_keys(old(m)@),
        attr_count(old(m)@, a@, 0isize) >= 1,
    ensures
        distinct_attr_keys(final(m)@),
        final(m)@.len() == old(m)@.len(),
        forall|k: int| 0 <= k < final(m)@.len()
            ==> (#[trigger] final(m)@[k]).0@ == old(m)@[k].0@,
        attr_count(final(m)@, a@, 0isize) == attr_count(old(m)@, a@, 0isize) - 1,
        forall|x: (int, Seq<char>)| x != a@
            ==> #[trigger] attr_count(final(m)@, x, 0isize) == attr_count(old(m)@, x, 0isize),
        forall|k: int| 0 <= k < final(m)@.len()
            ==> (#[trigger] final(m)@[k]).1 == attr_count(old(m)@, final(m)@[k].0@, 0isize) - (
            if final(m)@[k].0@ == a@ { 1int } else { 0int }),
        exists|k: int|
            0 <= k < old(m)@.len() && (#[trigger] old(m)@[k]).0@ == a@ && final(m)@ == old(
                m,
            )@.update(k, (old(m)@[k].0, (old(m)@[k].1 - 1) as isize)),
{
    let ghost m0 = old(m)@;
    let mut i: usize = 0;
    while i < m.len()
        invariant
            0 <= i <= m@.len(),
            m@ == m0,
            m0 == old(m)@,
            distinct_attr_keys(m0),
            attr_count(m0, a@, 0isize) >= 1,
            forall|k: int| 0 <= k < i ==> (#[trigger] m0[k]).0@ != a@,
        decreases m@.len() - i,
    {
        if m[i].0.eq_value(a) {
            proof {
                lemma_attr_count_at(m0, i as int, 0isize);
            }
            let cur = m[i].1;
            let entry = m.remove(i);
            m.insert(i, (entry.0, cur - 1));
            proof {
                assert(m@ =~= m0.update(i as int, (m0[i as int].0, (cur - 1) as isize)));
                assert(m@ == m0.update(
                    i as int,
                    (m0[i as int].0, (m0[i as int].1 - 1) as isize),
                ));
                lemma_attr_count_update(m0, m@, i as int, (cur - 1) as isize, 0isize);
                assert forall|k: int| 0 <= k < m@.len() implies (#[trigger] m@[k]).1
                    == attr_count(m0, m@[k].0@, 0isize) - (
                if m@[k].0@ == a@ { 1int } else { 0int }) by {
                    lemma_attr_count_at(m0, k, 0isize);
                    if k != i as int {
                        assert(m@[k] == m0[k]);
                        assert(m0[k].0@ != a@ || k == i as int) by {
                            if m0[k].0@ == a@ {
                                assert(m0[i as int].0@ == a@);
                            }
                        }
                    }
                }
            }
            return ;
        }
        i += 1;
    }
    proof {
        let w = choose|w: int| 0 <= w < m0.len() && (#[trigger] m0[w]).0@ == a@;
        assert(false);
    }
}

/// Appending an entry under a fresh key keeps the keys distinct, gives
/// that key its count, and changes no other attribute's count.
pub proof fn lemma_attr_count_push<C>(
    m1: Seq<(DataBlockValue, C)>,
    m2: Seq<(DataBlockValue, C)>,
    v: DataBlockValue,
    c: C,
    default: C,
)
    requires
        distinct_attr_keys(m1),
        forall|k: int| 0 <= k < m1.len() ==> (#[trigger] m1[k]).0@ != v@,
        m2 == m1.push((v, c)),
    ensures
        distinct_attr_keys(m2),
        attr_count(m2, v@, default) == c,
        forall|a: (int, Seq<char>)| a != v@
            ==> #[trigger] attr_count(m2, a, default) == attr_count(m1, a, default),
{
    let n = m1.len() as int;
    assert(forall|i: int| 0 <= i < n ==> #[trigger] m2[i] == m1[i]);
    assert(m2[n] == (v, c));
    assert forall|i: int, j: int| #![trigger m2[i], m2[j]]
        0 <= i < j < m2.len() implies m2[i].0@ != m2[j].0@ by {
        if j < n {
            assert(m1[i].0@ != m1[j].0@);
        } else {
            assert(m1[i].0@ != v@);
        }
    }
    assert(attr_count(m2, v@, default) == c) by {
        assert(m2[n].0@ == v@);
        let w = choose|w: int| 0 <= w < m2.len() && (#[trigger] m2[w]).0@ == v@;
        if w != n {
            assert(m1[w].0@ != v@);
        }
    }
    assert forall|a: (int, Seq<char>)| a != v@ implies #[trigger] attr_count(m2, a, default)
        == attr_count(m1, a, default) by {
        if exists|w: int| 0 <= w < m2.len() && (#[trigger] m2[w]).0@ == a {
            let w = choose|w: int| 0 <= w < m2.len() && (#[trigger] m2[w]).0@ == a;
            assert(w != n);
            assert(m1[w].0@ == a);
            let u = choose|u: int| 0 <= u < m1.len() && (#[trigger] m1[u]).0@ == a;
            assert(u == w || m1[u].0@ != m1[w].0@);
        } else {
            if exists|u: int| 0 <= u < m1.len() && (#[trigger] m1[u]).0@ == a {
                let u = choose|u: int| 0 <= u < m1.len() && (#[trigger] m1[u]).0@ == a;
                assert(m2[u].0@ == a);
            }
        }
    }
}

/// Raises the count recorded for `a` by one, inserting a fresh entry when
/// `a` was absent; every other attribute's count is untouched.
pub fn increment_attr_count(m: &mut AttributeCountMap, a: &DataBlockValue)
    requires
        distinct_attr_keys(old(m)@),
        attr_count(old(m)@, a@, 0usize) < usize::MAX,
    ensures
        distinct_attr_keys(final(m)@),
        attr_count(final(m)@, a@, 0usize) == attr_count(old(m)@, a@, 0usize) + 1,
        forall|x: (int, Seq<char>)| x != a@
            ==> #[trigger] attr_count(final(m)@, x, 0usize) == attr_count(old(m)@, x, 0usize),
{
    let ghost m0 = old(m)@;
    let mut i: usize = 0;
    while i < m.len()
        invariant
            0 <= i <= m@.len(),
            m@ == m0,
            m0 == old(m)@,
            distinct_attr_keys(m0),
            attr_count(m0, a@, 0usize) < usize::MAX,
            forall|k: int| 0 <= k < i ==> (#[trigger] m0[k]).0@ != a@,
        decreases m@.len() - i,
    {
        if m[i].0.eq_value(a) {
            proof {
                lemma_attr_count_at(m0, i as int, 0usize);
            }
            let cur = m[i].1;
            let entry = m.remove(i);
            m.insert(i, (entry.0, cur + 1));
            proof {
                assert(m@ =~= m0.update(i as int, (m0[i as int].0, (cur + 1) as usize)));
                lemma_attr_count_update(m0, m@, i as int, (cur + 1) as usize, 0usize);
            }
            return ;
        }
        i += 1;
    }
    proof {
        assert(forall|k: int| 0 <= k < m0.len() ==> (#[trigger] m0[k]).0@ != a@);
    }
    let v = a.clone_value();
    m.push((v, 1));
    proof {
        lemma_attr_count_push(m0, m@, (m@[m0.len() as int]).0, 1usize, 0usize);
    }
}

/// Whether the forbidden set holds attribute `a`.
pub open spec fn not_allowed_contains(s: Seq<DataBlockValue>, a: (int, Seq<char>)) -> bool {
    exists|k: int| 0 <= k < s.len() && (#[trigger] s[k])@ == a
}

/// Scans the forbidden set for the given attribute.
pub fn is_not_allowed(s: &NotAllowedAttrSet, a: &DataBlockValue) -> (r: bool)
    ensures
        r == not_allowed_contains(s@, a@),
{
    let mut i: usize = 0;
    while i < s.len()
        invariant
            0 <= i <= s@.len(),
            forall|k: int| 0 <= k < i ==> (#[trigger] s@[k])@ != a@,
        decreases s@.len() - i,
    {
        if s[i].eq_value(a) {
            proof {
                assert(s@[i as int]@ == a@);
            }
            return true;
        }
        i += 1;
    }
    false
}

} // verus!

//! Order statistics over sequences of unsigned values: minimum, maximum,
//! sum, sorted order and the median numerator/denominator pair.

use vstd::prelude::*;
use vstd::relations::{sorted_by, total_ordering};
use vstd::seq_lib::lemma_sorted_unique;

verus! {

/// The ordering the statistics sort by.
pub open spec fn u64_le() -> spec_fn(u64, u64) -> bool {
    |a: u64, b: u64| a <= b
}

pub proof fn lemma_u64_le_total()
    ensures
        total_ordering(u64_le()),
{
    assert(vstd::relations::reflexive(u64_le()));
    assert(vstd::relations::antisymmetric(u64_le()));
    assert(vstd::relations::transitive(u64_le()));
    assert(vstd::relations::strongly_connected(u64_le()));
}

pub open spec fn seq_sum(s: Seq<u64>) -> int
    decreases s.len(),
{
    if s.len() == 0 {
        0
    } else {
        seq_sum(s.drop_last()) + s.last()
    }
}

pub open spec fn seq_min(s: Seq<u64>) -> u64
    recommends
        s.len() > 0,
    decreases s.len(),
{
    if s.len() <= 1 {
        s[0]
    } else {
        let m = seq_min(s.drop_last());
        if s.last() < m {
            s.last()
        } else {
            m
        }
    }
}

pub open spec fn seq_max(s: Seq<u64>) -> u64
    recommends
        s.len() > 0,
    decreases s.len(),
{
    if s.len() <= 1 {
        s[0]
    } else {
        let m = seq_max(s.drop_last());
        if s.last() > m {
            s.last()
        } else {
            m
        }
    }
}

/// The ascending order of a value sequence.
pub open spec fn sorted_of(s: Seq<u64>) -> Seq<u64> {
    s.sort_by(u64_le())
}

/// Twice-the-median comes as a fraction: for an odd count the middle value
/// over 1, for an even count the sum of the two middle values over 2.
pub open spec fn median_num(s: Seq<u64>) -> int
    recommends
        s.len() > 0,
{
    let t = sorted_of(s);
    if s.len() % 2 == 1 {
        t[(s.len() / 2) as int] as int
    } else {
        t[(s.len() / 2 - 1) as int] + t[(s.len() / 2) as int]
    }
}

pub open spec fn median_den(s: Seq<u64>) -> int {
    if s.len() % 2 == 1 {
        1
    } else {
        2
    }
}

pub proof fn lemma_seq_min_props(s: Seq<u64>)
    requires
        s.len() > 0,
    ensures
        s.contains(seq_min(s)),
        forall|i: int| 0 <= i < s.len() ==> seq_min(s) <= #[trigger] s[i],
    decreases s.len(),
{
    if s.len() == 1 {
        assert(s[0] == seq_min(s));
    } else {
        lemma_seq_min_props(s.drop_last());
        let m = seq_min(s.drop_last());
        if s.last() < m {
            assert(s[s.len() - 1] == seq_min(s));
        } else {
            let j = choose|j: int| 0 <= j < s.drop_last().len() && s.drop_last()[j] == m;
            assert(s[j] == m);
        }
        assert forall|i: int| 0 <= i < s.len() implies seq_min(s) <= #[trigger] s[i] by {
            if i < s.len() - 1 {
                assert(s.drop_last()[i] == s[i]);
            }
        }
    }
}

pub proof fn lemma_seq_max_props(s: Seq<u64>)
    requires
        s.len() > 0,
    ensures
        s.contains(seq_max(s)),
        forall|i: int| 0 <= i < s.len() ==> #[trigger] s[i] <= seq_max(s),
    decreases s.len(),
{
    if s.len() == 1 {
        assert(s[0] == seq_max(s));
    } else {
        lemma_seq_max_props(s.drop_last());
        let m = seq_max(s.drop_last());
        if s.last() > m {
            assert(s[s.len() - 1] == seq_max(s));
        } else {
            let j = choose|j: int| 0 <= j < s.drop_last().len() && s.drop_last()[j] == m;
            assert(s[j] == m);
        }
        assert forall|i: int| 0 <= i < s.len() implies #[trigger] s[i] <= seq_max(s) by {
            if i < s.len() - 1 {
                assert(s.drop_last()[i] == s[i]);
            }
        }
    }
}

/// The sum of a value sequence is non-negative and at most count times the
/// largest representable value.
pub proof fn lemma_seq_sum_range(s: Seq<u64>)
    ensures
        0 <= seq_sum(s) <= s.len() * (u64::MAX as int),
    decreases s.len(),
{
    if s.len() > 0 {
        lemma_seq_sum_range(s.drop_last());
        assert(s.len() * (u64::MAX as int) == (s.len() - 1) * (u64::MAX as int) + (
        u64::MAX as int)) by (nonlinear_arith);
    }
}

/// The sum of a non-empty value sequence sits between count times the
/// minimum and count times the maximum: the mean is bounded by both.
pub proof fn lemma_sum_bounds(s: Seq<u64>)
    requires
        s.len() > 0,
    ensures
        seq_min(s) * s.len() <= seq_sum(s) <= seq_max(s) * s.len(),
    decreases s.len(),
{
    if s.len() == 1 {
        assert(s.drop_last().len() == 0);
        assert(seq_sum(s) == seq_sum(s.drop_last()) + s.last());
        assert(seq_sum(s) == s[0]);
        assert(seq_min(s) == s[0] && seq_max(s) == s[0]);
    } else {
        lemma_sum_bounds(s.drop_last());
        let mn = seq_min(s);
        let mx = seq_max(s);
        let dmn = seq_min(s.drop_last());
        let dmx = seq_max(s.drop_last());
        assert(mn <= dmn && mn <= s.last());
        assert(dmx <= mx && s.last() <= mx);
        assert(mn * (s.len() - 1) <= dmn * (s.len() - 1)) by (nonlinear_arith)
            requires
                mn <= dmn,
                s.len() >= 1,
        ;
        assert(dmx * (s.len() - 1) <= mx * (s.len() - 1)) by (nonlinear_arith)
            requires
                dmx <= mx,
                s.len() >= 1,
        ;
        assert(mn * s.len() == mn * (s.len() - 1) + mn) by (nonlinear_arith);
        assert(mx * s.len() == mx * (s.len() - 1) + mx) by (nonlinear_arith);
    }
}

pub proof fn lemma_sorted_of_props(s: Seq<u64>)
    ensures
        sorted_by(sorted_of(s), u64_le()),
        sorted_of(s).to_multiset() == s.to_multiset(),
        sorted_of(s).len() == s.len(),
{
    lemma_u64_le_total();
    s.lemma_sort_by_ensures(u64_le());
    broadcast use vstd::seq_lib::group_to_multiset_ensures;

    assert(sorted_of(s).to_multiset() =~= s.to_multiset());
    assert(sorted_of(s).to_multiset().len() == sorted_of(s).len());
}

/// Any sorted sequence with the same values as `s` is its sorted order.
pub proof fn lemma_sorted_is_sorted_of(s: Seq<u64>, t: Seq<u64>)
    requires
        sorted_by(t, u64_le()),
        t.to_multiset() == s.to_multiset(),
    ensures
        t == sorted_of(s),
{
    lemma_u64_le_total();
    lemma_sorted_of_props(s);
    lemma_sorted_unique(t, sorted_of(s), u64_le());
}

/// Every value of the sorted order lies between the minimum and the maximum.
pub proof fn lemma_sorted_of_bounds(s: Seq<u64>, i: int)
    requires
        s.len() > 0,
        0 <= i < s.len(),
    ensures
        seq_min(s) <= sorted_of(s)[i] <= seq_max(s),
{
    lemma_sorted_of_props(s);
    lemma_seq_min_props(s);
    lemma_seq_max_props(s);
    broadcast use vstd::seq_lib::group_to_multiset_ensures;

    let t = sorted_of(s);
    assert(t.contains(t[i]));
    assert(t.to_multiset().count(t[i]) > 0);
    assert(s.contains(t[i]));
}

/// The median, as the fraction `median_num / median_den`, lies between the
/// minimum and the maximum.
pub proof fn lemma_median_bounds(s: Seq<u64>)
    requires
        s.len() > 0,
    ensures
        median_den(s) * seq_min(s) <= median_num(s) <= median_den(s) * seq_max(s),
{
    if s.len() % 2 == 1 {
        lemma_sorted_of_bounds(s, (s.len() / 2) as int);
    } else {
        lemma_sorted_of_bounds(s, (s.len() / 2 - 1) as int);
        lemma_sorted_of_bounds(s, (s.len() / 2) as int);
    }
}

proof fn lemma_sum_remove(s: Seq<u64>, i: int)
    requires
        0 <= i < s.len(),
    ensures
        seq_sum(s) == seq_sum(s.remove(i)) + s[i],
    decreases s.len(),
{
    if i == s.len() - 1 {
        assert(s.remove(i) =~= s.drop_last());
    } else {
        assert(s.remove(i).drop_last() =~= s.drop_last().remove(i));
        assert(s.remove(i).last() == s.last());
        lemma_sum_remove(s.drop_last(), i);
    }
}

/// The sum does not depend on the order of the values.
pub proof fn lemma_sum_permutation(s1: Seq<u64>, s2: Seq<u64>)
    requires
        s1.to_multiset() == s2.to_multiset(),
    ensures
        seq_sum(s1) == seq_sum(s2),
    decreases s1.len(),
{
    broadcast use vstd::seq_lib::group_to_multiset_ensures;
    broadcast use vstd::multiset::group_multiset_axioms;

    if s1.len() > 0 {
        let x = s1.last();
        assert(s1.contains(x));
        assert(s2.to_multiset().count(x) > 0);
        assert(s2.contains(x));
        let j = choose|j: int| 0 <= j < s2.len() && s2[j] == x;
        assert(s1 =~= s1.drop_last().push(x));
        assert(s1.to_multiset() =~= s1.drop_last().to_multiset().insert(x));
        assert(s2.remove(j).to_multiset() =~= s2.to_multiset().remove(x));
        assert(s1.drop_last().to_multiset() =~= s2.remove(j).to_multiset());
        lemma_sum_permutation(s1.drop_last(), s2.remove(j));
        lemma_sum_remove(s2, j);
    } else {
        if s2.len() > 0 {
            assert(s2.contains(s2[0]));
            assert(s1.to_multiset().count(s2[0]) > 0);
            assert(false);
        }
    }
}

/// None of the order statistics depends on the order of the values: any
/// reordering has the same minimum, maximum, sum and median.
pub proof fn lemma_stats_permutation(s1: Seq<u64>, s2: Seq<u64>)
    requires
        s1.len() > 0,
        s1.to_multiset() == s2.to_multiset(),
    ensures
        s2.len() == s1.len(),
        seq_min(s1) == seq_min(s2),
        seq_max(s1) == seq_max(s2),
        seq_sum(s1) == seq_sum(s2),
        median_num(s1) == median_num(s2),
        median_den(s1) == median_den(s2),
{
    broadcast use vstd::seq_lib::group_to_multiset_ensures;

    assert(s1.to_multiset().len() == s1.len());
    lemma_sum_permutation(s1, s2);
    lemma_sorted_of_props(s1);
    lemma_sorted_of_props(s2);
    lemma_sorted_is_sorted_of(s1, sorted_of(s2));
    lemma_min_is_sorted_first(s1);
    lemma_min_is_sorted_first(s2);
    lemma_max_is_sorted_last(s1);
    lemma_max_is_sorted_last(s2);
}

/// The minimum is the first value of the sorted order.
pub proof fn lemma_min_is_sorted_first(s: Seq<u64>)
    requires
        s.len() > 0,
    ensures
        seq_min(s) == sorted_of(s)[0],
{
    broadcast use vstd::seq_lib::group_to_multiset_ensures;

    lemma_sorted_of_props(s);
    lemma_seq_min_props(s);
    let t = sorted_of(s);
    assert(s.contains(seq_min(s)));
    assert(t.to_multiset().count(seq_min(s)) > 0);
    assert(t.contains(seq_min(s)));
    let j = choose|j: int| 0 <= j < t.len() && t[j] == seq_min(s);
    if j > 0 {
        assert(u64_le()(t[0], t[j]));
    }
    lemma_sorted_of_bounds(s, 0);
}

/// The maximum is the last value of the sorted order.
pub proof fn lemma_max_is_sorted_last(s: Seq<u64>)
    requires
        s.len() > 0,
    ensures
        seq_max(s) == sorted_of(s)[s.len() - 1],
{
    broadcast use vstd::seq_lib::group_to_multiset_ensures;

    lemma_sorted_of_props(s);
    lemma_seq_max_props(s);
    let t = sorted_of(s);
    assert(s.contains(seq_max(s)));
    assert(t.to_multiset().count(seq_max(s)) > 0);
    assert(t.contains(seq_max(s)));
    let j = choose|j: int| 0 <= j < t.len() && t[j] == seq_max(s);
    if j < t.len() - 1 {
        assert(u64_le()(t[j], t[t.len() - 1]));
    }
    lemma_sorted_of_bounds(s, s.len() - 1);
}

/// Sorts the values ascending by repeatedly moving the least remaining
/// value across.
pub fn sort_values(v: Vec<u64>) -> (out: Vec<u64>)
    ensures
        out@ == sorted_of(v@),
{
    broadcast use vstd::seq_lib::group_to_multiset_ensures;
    broadcast use vstd::multiset::group_multiset_axioms;

    let ghost orig = v@;
    let mut rem = v;
    let mut out: Vec<u64> = Vec::new();
    proof {
        assert(out@.to_multiset().add(rem@.to_multiset()) =~= orig.to_multiset());
    }
    while rem.len() > 0
        invariant
            out@.to_multiset().add(rem@.to_multiset()) == orig.to_multiset(),
            sorted_by(out@, u64_le()),
            forall|i: int, j: int|
                0 <= i < out@.len() && 0 <= j < rem@.len() ==> #[trigger] out@[i]
                    <= #[trigger] rem@[j],
        decreases rem.len(),
    {
        let mut m: usize = 0;
        let mut k: usize = 1;
        while k < rem.len()
            invariant
                m < k <= rem@.len(),
                rem@.len() > 0,
                forall|q: int| 0 <= q < k ==> rem@[m as int] <= #[trigger] rem@[q],
            decreases rem@.len() - k,
        {
            if rem[k] < rem[m] {
                m = k;
            }
            k = k + 1;
        }
        let ghost old_out = out@;
        let ghost old_rem = rem@;
        let x = rem.remove(m);
        out.push(x);
        proof {
            broadcast use vstd::seq_lib::group_to_multiset_ensures;
            broadcast use vstd::multiset::group_multiset_axioms;

            assert(old_rem.remove(m as int).to_multiset() =~= old_rem.to_multiset().remove(x));
            assert(out@.to_multiset() =~= old_out.to_multiset().insert(x));
            assert(out@.to_multiset().add(rem@.to_multiset()) =~= orig.to_multiset());
            assert forall|i: int, j: int|
                0 <= i < out@.len() && 0 <= j < rem@.len() implies #[trigger] out@[i]
                <= #[trigger] rem@[j] by {
                if i < out@.len() - 1 {
                    assert(out@[i] == old_out[i]);
                }
                if j < m {
                    assert(rem@[j] == old_rem[j]);
                } else {
                    assert(rem@[j] == old_rem[j + 1]);
                }
            }
            assert forall|i: int, j: int|
                0 <= i < j < out@.len() implies #[trigger] u64_le()(out@[i], out@[j]) by {
                if j < out@.len() - 1 {
                    assert(old_out[i] == out@[i] && old_out[j] == out@[j]);
                } else {
                    assert(out@[j] == x);
                    assert(old_out[i] == out@[i]);
                    assert(old_rem[m as int] == x);
                }
            }
        }
    }
    proof {
        assert(rem@.to_multiset().len() == 0);
        assert(out@.to_multiset().add(rem@.to_multiset()) =~= out@.to_multiset());
        lemma_sorted_is_sorted_of(orig, out@);
    }
    out
}

} // verus!

//! Key grouping: counting how often each key occurs and ordering the
//! resulting entries by descending count.

use vstd::prelude::*;

verus! {

/// How many keys of `ks` equal `k`.
pub open spec fn count_of(ks: Seq<Seq<char>>, k: Seq<char>) -> nat
    decreases ks.len(),
{
    if ks.len() == 0 {
        0
    } else {
        count_of(ks.drop_last(), k) + if ks.last() == k {
            1nat
        } else {
            0nat
        }
    }
}

/// Some entry of `g` carries key `k`.
pub open spec fn has_key(g: Seq<(String, usize)>, k: Seq<char>) -> bool {
    exists|e: int| 0 <= e < g.len() && g[e].0@ == k
}

/// Entry keys are pairwise distinct.
pub open spec fn distinct_keys(g: Seq<(String, usize)>) -> bool {
    forall|i: int, j: int| 0 <= i < j < g.len() ==> g[i].0@ != g[j].0@
}

/// Every entry's count is the number of keys equal to its key, and positive.
pub open spec fn counts_match(g: Seq<(String, usize)>, ks: Seq<Seq<char>>) -> bool {
    forall|e: int|
        0 <= e < g.len() ==> (#[trigger] g[e].1) as nat == count_of(ks, g[e].0@) && g[e].1 >= 1
}

/// Entries come in non-increasing order of count.
pub open spec fn sorted_desc(g: Seq<(String, usize)>) -> bool {
    forall|i: int, j: int| 0 <= i < j < g.len() ==> (#[trigger] g[i].1) >= (#[trigger] g[j].1)
}

proof fn lemma_count_le_len(ks: Seq<Seq<char>>, k: Seq<char>)
    ensures
        count_of(ks, k) <= ks.len(),
    decreases ks.len(),
{
    if ks.len() > 0 {
        lemma_count_le_len(ks.drop_last(), k);
    }
}

proof fn lemma_count_pos_has_index(ks: Seq<Seq<char>>, k: Seq<char>)
    requires
        count_of(ks, k) > 0,
    ensures
        exists|i: int| 0 <= i < ks.len() && #[trigger] ks[i] == k,
    decreases ks.len(),
{
    if ks.last() == k {
        assert(ks[ks.len() - 1] == k);
    } else {
        lemma_count_pos_has_index(ks.drop_last(), k);
        let i = choose|i: int| 0 <= i < ks.drop_last().len() && #[trigger] ks.drop_last()[i] == k;
        assert(ks[i] == k);
    }
}

/// Counts each key of `keys`, in first-appearance order of the keys.
#[verifier::loop_isolation(false)]
pub fn build_counts(keys: &Vec<String>) -> (g: Vec<(String, usize)>)
    ensures
        ({
            let ks = keys@.map_values(|s: String| s@);
            &&& counts_match(g@, ks)
            &&& distinct_keys(g@)
            &&& forall|i: int| 0 <= i < ks.len() ==> has_key(g@, #[trigger] ks[i])
        }),
{
    let ghost ks = keys@.map_values(|s: String| s@);
    let n = keys.len();
    let mut g: Vec<(String, usize)> = Vec::new();
    proof {
        assert(ks.take(0) =~= Seq::<Seq<char>>::empty());
    }
    for q in 0..n
        invariant
            n == keys@.len(),
            ks == keys@.map_values(|s: String| s@),
            counts_match(g@, ks.take(q as int)),
            distinct_keys(g@),
            forall|i: int| 0 <= i < q ==> has_key(g@, #[trigger] ks[i]),
    {
        let kq = keys[q].clone();
        proof {
            assert(ks[q as int] == kq@);
            assert(ks.take(q + 1).drop_last() =~= ks.take(q as int));
            assert(ks.take(q + 1).last() == ks[q as int]);
        }
        let mut e: usize = 0;
        let mut found: bool = false;
        while e < g.len() && !found
            invariant
                e <= g@.len(),
                found ==> e < g@.len() && g@[e as int].0@ == kq@,
                !found ==> forall|x: int| 0 <= x < e ==> g@[x].0@ != kq@,
            decreases g@.len() - e + (if found { 0int } else { 1int }),
        {
            if g[e].0.eq(&kq) {
                found = true;
            } else {
                e = e + 1;
            }
        }
        if found {
            let ghost pre = g@;
            let (k0, c) = g.remove(e);
            proof {
                lemma_count_le_len(ks.take(q as int), k0@);
            }
            g.insert(e, (k0, c + 1));
            proof {
                assert forall|x: int| 0 <= x < g@.len() implies #[trigger] g@[x].0@
                    == pre[x].0@ by {
                    if x < e {
                    } else if x == e {
                    } else {
                        assert(g@[x] == pre[x]);
                    }
                }
                assert(g@[e as int].0 == k0 && g@[e as int].1 == c + 1);
                assert forall|x: int| 0 <= x < g@.len() implies (#[trigger] g@[x].1) as nat
                    == count_of(ks.take(q + 1), g@[x].0@) && g@[x].1 >= 1 by {
                    if x == e {
                        assert(count_of(ks.take(q + 1), k0@) == count_of(
                            ks.take(q as int),
                            k0@,
                        ) + 1);
                    } else {
                        assert(g@[x].1 == pre[x].1);
                        assert(pre[x].0@ != k0@);
                        assert(count_of(ks.take(q + 1), g@[x].0@) == count_of(
                            ks.take(q as int),
                            g@[x].0@,
                        ));
                    }
                }
                assert forall|i: int| 0 <= i < q + 1 implies has_key(g@, #[trigger] ks[i]) by {
                    if i == q {
                        assert(g@[e as int].0@ == ks[q as int]);
                    } else {
                        let e0 = choose|e0: int| 0 <= e0 < pre.len() && pre[e0].0@ == ks[i];
                        assert(g@[e0].0@ == ks[i]);
                    }
                }
            }
        } else {
            proof {
                if count_of(ks.take(q as int), kq@) > 0 {
                    lemma_count_pos_has_index(ks.take(q as int), kq@);
                    let i = choose|i: int|
                        0 <= i < ks.take(q as int).len() && #[trigger] ks.take(q as int)[i]
                            == kq@;
                    assert(has_key(g@, ks[i]));
                    let e0 = choose|e0: int| 0 <= e0 < g@.len() && g@[e0].0@ == ks[i];
                    assert(false);
                }
            }
            let ghost pre = g@;
            g.push((kq, 1));
            proof {
                assert forall|x: int| 0 <= x < g@.len() implies (#[trigger] g@[x].1) as nat
                    == count_of(ks.take(q + 1), g@[x].0@) && g@[x].1 >= 1 by {
                    if x < g@.len() - 1 {
                        assert(g@[x] == pre[x]);
                        assert(pre[x].0@ != kq@);
                        assert(count_of(ks.take(q + 1), g@[x].0@) == count_of(
                            ks.take(q as int),
                            g@[x].0@,
                        ));
                    } else {
                        assert(g@[x].0 == kq && g@[x].1 == 1);
                        assert(count_of(ks.take(q + 1), kq@) == count_of(ks.take(q as int), kq@)
                            + 1);
                    }
                }
                assert forall|i: int| 0 <= i < q + 1 implies has_key(g@, #[trigger] ks[i]) by {
                    if i == q {
                        assert(g@[g@.len() - 1].0@ == ks[q as int]);
                    } else {
                        let e0 = choose|e0: int| 0 <= e0 < pre.len() && pre[e0].0@ == ks[i];
                        assert(g@[e0].0@ == ks[i]);
                    }
                }
            }
        }
    }
    proof {
        assert(ks.take(n as int) =~= ks);
    }
    g
}

/// Orders the entries by descending count, repeatedly moving the largest
/// remaining count across; entries with equal counts keep the order they
/// arrived in.
pub fn sort_groups(g: Vec<(String, usize)>) -> (out: Vec<(String, usize)>)
    ensures
        out@.to_multiset() == g@.to_multiset(),
        out@.len() == g@.len(),
        sorted_desc(out@),
{
    let ghost orig = g@;
    let mut rem = g;
    let mut out: Vec<(String, usize)> = Vec::new();
    proof {
        broadcast use vstd::seq_lib::group_to_multiset_ensures;
        broadcast use vstd::multiset::group_multiset_axioms;

        assert(out@.to_multiset().add(rem@.to_multiset()) =~= orig.to_multiset());
    }
    while rem.len() > 0
        invariant
            out@.to_multiset().add(rem@.to_multiset()) == orig.to_multiset(),
            out@.len() + rem@.len() == orig.len(),
            sorted_desc(out@),
            forall|i: int, j: int|
                0 <= i < out@.len() && 0 <= j < rem@.len() ==> (#[trigger] out@[i].1)
                    >= (#[trigger] rem@[j].1),
        decreases rem.len(),
    {
        let mut m: usize = 0;
        let mut k: usize = 1;
        while k < rem.len()
            invariant
                m < k <= rem@.len(),
                rem@.len() > 0,
                forall|x: int| 0 <= x < k ==> rem@[m as int].1 >= (#[trigger] rem@[x].1),
            decreases rem@.len() - k,
        {
            if rem[k].1 > rem[m].1 {
                m = k;
            }
            k = k + 1;
        }
        let ghost old_out = out@;
        let ghost old_rem = rem@;
        let x = rem.remove(m);
        out.push(x);
        proof {
            broadcast use vstd::seq_lib::group_to_multiset_ensures;
            broadcast use vstd::multiset::group_multiset_axioms;

            assert(old_rem.remove(m as int).to_multiset() =~= old_rem.to_multiset().remove(x));
            assert(out@.to_multiset() =~= old_out.to_multiset().insert(x));
            assert(out@.to_multiset().add(rem@.to_multiset()) =~= orig.to_multiset());
            assert forall|i: int, j: int|
                0 <= i < out@.len() && 0 <= j < rem@.len() implies (#[trigger] out@[i].1)
                >= (#[trigger] rem@[j].1) by {
                if i < out@.len() - 1 {
                    assert(out@[i] == old_out[i]);
                }
                if j < m {
                    assert(rem@[j] == old_rem[j]);
                } else {
                    assert(rem@[j] == old_rem[j + 1]);
                }
            }
            assert forall|i: int, j: int|
                0 <= i < j < out@.len() implies (#[trigger] out@[i].1) >= (
            #[trigger] out@[j].1) by {
                if j < out@.len() - 1 {
                    assert(out@[i] == old_out[i] && out@[j] == old_out[j]);
                } else {
                    assert(out@[j] == x);
                    assert(out@[i] == old_out[i]);
                    assert(old_rem[m as int] == x);
                }
            }
        }
    }
    proof {
        broadcast use vstd::seq_lib::group_to_multiset_ensures;

        assert(rem@.to_multiset().len() == 0);
        assert(out@.to_multiset().add(rem@.to_multiset()) =~= out@.to_multiset());
    }
    out
}

/// A reordering of grouping entries keeps every per-entry property:
/// the counts still match, the keys stay distinct, and the same keys appear.
pub proof fn lemma_perm_group_props(
    a: Seq<(String, usize)>,
    b: Seq<(String, usize)>,
    ks: Seq<Seq<char>>,
)
    requires
        a.to_multiset() == b.to_multiset(),
        counts_match(a, ks),
        distinct_keys(a),
    ensures
        counts_match(b, ks),
        distinct_keys(b),
        forall|k: Seq<char>| has_key(a, k) ==> has_key(b, k),
{
    broadcast use vstd::seq_lib::group_to_multiset_ensures;
    broadcast use vstd::multiset::group_multiset_axioms;

    assert forall|e: int|
        0 <= e < b.len() implies (#[trigger] b[e].1) as nat == count_of(ks, b[e].0@) && b[e].1
        >= 1 by {
        let p = b[e];
        assert(b.contains(p));
        assert(a.to_multiset().count(p) > 0);
        assert(a.contains(p));
        let i = choose|i: int| 0 <= i < a.len() && a[i] == p;
        assert(a[i].1 as nat == count_of(ks, a[i].0@));
    }
    assert forall|k: Seq<char>| has_key(a, k) implies has_key(b, k) by {
        let e = choose|e: int| 0 <= e < a.len() && a[e].0@ == k;
        let p = a[e];
        assert(a.contains(p));
        assert(b.to_multiset().count(p) > 0);
        assert(b.contains(p));
        let e2 = choose|e2: int| 0 <= e2 < b.len() && b[e2] == p;
        assert(b[e2].0@ == k);
    }
    assert forall|i: int, j: int| 0 <= i < j < b.len() implies b[i].0@ != b[j].0@ by {
        if b[i].0@ == b[j].0@ {
            if b[i] == b[j] {
                let p = b[i];
                assert(b.remove(i).to_multiset() =~= b.to_multiset().remove(p));
                assert(b.remove(i)[j - 1] == p);
                assert(b.remove(i).contains(p));
                assert(b.remove(i).to_multiset().count(p) > 0);
                assert(a.to_multiset().count(p) >= 2);
                assert(a.contains(p));
                let i1 = choose|i1: int| 0 <= i1 < a.len() && a[i1] == p;
                assert(a.remove(i1).to_multiset() =~= a.to_multiset().remove(p));
                assert(a.remove(i1).to_multiset().count(p) > 0);
                assert(a.remove(i1).contains(p));
                let i2 = choose|i2: int| 0 <= i2 < a.remove(i1).len() && a.remove(i1)[i2] == p;
                if i2 < i1 {
                    assert(a[i2] == p);
                } else {
                    assert(a[i2 + 1] == p);
                }
                assert(false);
            } else {
                assert(b.contains(b[i]));
                assert(b.contains(b[j]));
                assert(a.to_multiset().count(b[i]) > 0);
                assert(a.to_multiset().count(b[j]) > 0);
                assert(a.contains(b[i]));
                assert(a.contains(b[j]));
                let i1 = choose|i1: int| 0 <= i1 < a.len() && a[i1] == b[i];
                let j1 = choose|j1: int| 0 <= j1 < a.len() && a[j1] == b[j];
                assert(i1 != j1);
                assert(false);
            }
        }
    }
}

/// The count of every key is unchanged by reordering the key sequence.
pub proof fn lemma_count_of_permutation(ks1: Seq<Seq<char>>, ks2: Seq<Seq<char>>, k: Seq<char>)
    requires
        ks1.to_multiset() == ks2.to_multiset(),
    ensures
        count_of(ks1, k) == count_of(ks2, k),
    decreases ks1.len(),
{
    broadcast use vstd::seq_lib::group_to_multiset_ensures;
    broadcast use vstd::multiset::group_multiset_axioms;

    if ks1.len() > 0 {
        let x = ks1.last();
        assert(ks1.contains(x));
        assert(ks2.to_multiset().count(x) > 0);
        assert(ks2.contains(x));
        let j = choose|j: int| 0 <= j < ks2.len() && ks2[j] == x;
        assert(ks1 =~= ks1.drop_last().push(x));
        assert(ks1.to_multiset() =~= ks1.drop_last().to_multiset().insert(x));
        assert(ks2.remove(j).to_multiset() =~= ks2.to_multiset().remove(x));
        assert(ks1.drop_last().to_multiset() =~= ks2.remove(j).to_multiset());
        lemma_count_of_permutation(ks1.drop_last(), ks2.remove(j), k);
        lemma_count_of_remove(ks2, j, k);
    } else {
        if ks2.len() > 0 {
            assert(ks2.contains(ks2[0]));
            assert(ks1.to_multiset().count(ks2[0]) > 0);
            assert(false);
        }
    }
}

proof fn lemma_count_of_remove(ks: Seq<Seq<char>>, j: int, k: Seq<char>)
    requires
        0 <= j < ks.len(),
    ensures
        count_of(ks, k) == count_of(ks.remove(j), k) + if ks[j] == k {
            1nat
        } else {
            0nat
        },
    decreases ks.len(),
{
    if j == ks.len() - 1 {
        assert(ks.remove(j) =~= ks.drop_last());
    } else {
        assert(ks.remove(j).drop_last() =~= ks.drop_last().remove(j));
        assert(ks.remove(j).last() == ks.last());
        lemma_count_of_remove(ks.drop_last(), j, k);
    }
}

} // verus!

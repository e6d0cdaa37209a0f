//! The aggregate report over a non-empty collection of records: order
//! statistics of the query times and response sizes, and per-server and
//! per-protocol counts ordered by descending count.

use vstd::prelude::*;
use crate::extract::{Record, RecordModel};
use crate::numbers::{dec_chars, u64_to_string};
use crate::stats::{
    seq_min, seq_max, seq_sum, median_num, median_den, sorted_of, sort_values,
    lemma_sorted_of_props, lemma_sum_bounds, lemma_median_bounds, lemma_seq_sum_range,
    lemma_stats_permutation,
};
use crate::groups::{
    count_of, has_key, distinct_keys, counts_match, sorted_desc, build_counts, sort_groups,
    lemma_perm_group_props, lemma_count_of_permutation,
};

verus! {

/// The grouping key of a record: the server, a colon, the port in decimal.
pub open spec fn server_key_spec(r: RecordModel) -> Seq<char> {
    r.server + seq![':'] + dec_chars(r.port as nat)
}

/// The query times of the records, in order, in microseconds.
pub open spec fn times_of(rs: Seq<RecordModel>) -> Seq<u64> {
    rs.map_values(|r: RecordModel| r.query_time_us)
}

/// The response sizes of the records, in order.
pub open spec fn sizes_of(rs: Seq<RecordModel>) -> Seq<u64> {
    rs.map_values(|r: RecordModel| r.response_size_bytes as u64)
}

/// The server grouping keys of the records, in order.
pub open spec fn server_keys_of(rs: Seq<RecordModel>) -> Seq<Seq<char>> {
    rs.map_values(|r: RecordModel| server_key_spec(r))
}

/// The protocol grouping keys of the records, in order.
pub open spec fn proto_keys_of(rs: Seq<RecordModel>) -> Seq<Seq<char>> {
    rs.map_values(|r: RecordModel| r.protocol)
}

/// Renders a record's server grouping key.
pub fn server_key(r: &Record) -> (out: String)
    ensures
        out@ == server_key_spec(r@),
{
    let mut s = r.server.clone();
    s.append(":");
    let p = u64_to_string(r.port as u64);
    s.append(p.as_str());
    proof {
        reveal_strlit(":");
        assert(":"@ =~= seq![':']);
        assert(s@ =~= server_key_spec(r@));
    }
    s
}

/// The aggregate statistics of one run. Query times are microseconds; the
/// mean time is `time_total_us / count` and the median is
/// `time_median_num_us / time_median_den`, both as exact fractions. The
/// mean response size is `size_total / count`.
pub struct Report {
    pub count: usize,
    pub time_min_us: u64,
    pub time_max_us: u64,
    pub time_total_us: u128,
    pub time_median_num_us: u128,
    pub time_median_den: u64,
    pub size_min: u64,
    pub size_max: u64,
    pub size_total: u128,
    pub server_counts: Vec<(String, usize)>,
    pub protocol_counts: Vec<(String, usize)>,
}

fn vec_min(v: &Vec<u64>) -> (m: u64)
    requires
        v@.len() > 0,
    ensures
        m == seq_min(v@),
{
    let mut m = v[0];
    let n = v.len();
    proof {
        assert(v@.take(1) =~= seq![v@[0]]);
    }
    for k in 1..n
        invariant
            1 <= k <= n == v@.len(),
            m == seq_min(v@.take(k as int)),
        decreases n - k,
    {
        proof {
            assert(v@.take(k + 1).drop_last() =~= v@.take(k as int));
            assert(v@.take(k + 1).last() == v@[k as int]);
        }
        if v[k] < m {
            m = v[k];
        }
    }
    proof {
        assert(v@.take(n as int) =~= v@);
    }
    m
}

fn vec_max(v: &Vec<u64>) -> (m: u64)
    requires
        v@.len() > 0,
    ensures
        m == seq_max(v@),
{
    let mut m = v[0];
    let n = v.len();
    proof {
        assert(v@.take(1) =~= seq![v@[0]]);
    }
    for k in 1..n
        invariant
            1 <= k <= n == v@.len(),
            m == seq_max(v@.take(k as int)),
        decreases n - k,
    {
        proof {
            assert(v@.take(k + 1).drop_last() =~= v@.take(k as int));
            assert(v@.take(k + 1).last() == v@[k as int]);
        }
        if v[k] > m {
            m = v[k];
        }
    }
    proof {
        assert(v@.take(n as int) =~= v@);
    }
    m
}

fn vec_sum(v: &Vec<u64>) -> (s: u128)
    ensures
        s as int == seq_sum(v@),
{
    let mut s: u128 = 0;
    let n = v.len();
    proof {
        assert(v@.take(0) =~= Seq::<u64>::empty());
    }
    for k in 0..n
        invariant
            k <= n == v@.len(),
            s as int == seq_sum(v@.take(k as int)),
        decreases n - k,
    {
        proof {
            assert(v@.take(k + 1).drop_last() =~= v@.take(k as int));
            assert(v@.take(k + 1).last() == v@[k as int]);
            lemma_seq_sum_range(v@.take(k as int));
            assert(seq_sum(v@.take(k as int)) + v@[k as int] <= u128::MAX) by (nonlinear_arith)
                requires
                    seq_sum(v@.take(k as int)) <= (k as int) * (u64::MAX as int),
                    v@[k as int] <= u64::MAX,
                    0 <= k < 0x1_0000_0000_0000_0000,
            ;
        }
        s = s + v[k] as u128;
    }
    proof {
        assert(v@.take(n as int) =~= v@);
    }
    s
}

/// Computes the aggregate report of a non-empty record collection.
///
/// Each order statistic is pinned to its defining specification, and both
/// groupings carry one entry per distinct key, holding the exact number of
/// records under that key, ordered by descending count (entries with equal
/// counts are left in first-appearance order).
pub fn aggregate(records: &Vec<Record>) -> (r: Report)
    requires
        records@.len() > 0,
    ensures
        ({
            let rs = records@.map_values(|x: Record| x@);
            &&& r.count == records@.len()
            &&& r.time_min_us == seq_min(times_of(rs))
            &&& r.time_max_us == seq_max(times_of(rs))
            &&& r.time_total_us as int == seq_sum(times_of(rs))
            &&& r.time_median_num_us as int == median_num(times_of(rs))
            &&& r.time_median_den as int == median_den(times_of(rs))
            &&& r.size_min == seq_min(sizes_of(rs))
            &&& r.size_max == seq_max(sizes_of(rs))
            &&& r.size_total as int == seq_sum(sizes_of(rs))
            &&& counts_match(r.server_counts@, server_keys_of(rs))
            &&& distinct_keys(r.server_counts@)
            &&& (forall|i: int|
                0 <= i < rs.len() ==> has_key(r.server_counts@, #[trigger] server_keys_of(rs)[i]))
            &&& sorted_desc(r.server_counts@)
            &&& counts_match(r.protocol_counts@, proto_keys_of(rs))
            &&& distinct_keys(r.protocol_counts@)
            &&& (forall|i: int|
                0 <= i < rs.len() ==> has_key(r.protocol_counts@, #[trigger] proto_keys_of(rs)[i]))
            &&& sorted_desc(r.protocol_counts@)
        }),
{
    let ghost rs = records@.map_values(|x: Record| x@);
    let n = records.len();
    let mut tv: Vec<u64> = Vec::new();
    let mut sv: Vec<u64> = Vec::new();
    let mut skeys: Vec<String> = Vec::new();
    let mut pkeys: Vec<String> = Vec::new();
    proof {
        assert(times_of(rs).take(0) =~= tv@);
        assert(sizes_of(rs).take(0) =~= sv@);
    }
    for q in 0..n
        invariant
            n == records@.len(),
            rs == records@.map_values(|x: Record| x@),
            tv@ == times_of(rs).take(q as int),
            sv@ == sizes_of(rs).take(q as int),
            skeys@.len() == q as int,
            pkeys@.len() == q as int,
            skeys@.map_values(|s: String| s@) == server_keys_of(rs).take(q as int),
            pkeys@.map_values(|s: String| s@) == proto_keys_of(rs).take(q as int),
        decreases n - q,
    {
        proof {
            assert(rs[q as int] == records@[q as int]@);
        }
        tv.push(records[q].query_time_us);
        sv.push(records[q].response_size_bytes as u64);
        let sk = server_key(&records[q]);
        skeys.push(sk);
        let pk = records[q].protocol.clone();
        pkeys.push(pk);
        proof {
            assert(rs.len() == records@.len());
            assert(server_keys_of(rs)[q as int] == server_key_spec(rs[q as int]));
            assert(proto_keys_of(rs)[q as int] == rs[q as int].protocol);
            assert(tv@ =~= times_of(rs).take(q + 1));
            assert(sv@ =~= sizes_of(rs).take(q + 1));
            assert(skeys@.map_values(|s: String| s@) =~~= server_keys_of(rs).take(q + 1));
            assert(pkeys@.map_values(|s: String| s@) =~~= proto_keys_of(rs).take(q + 1));
        }
    }
    proof {
        assert(times_of(rs).take(n as int) =~= times_of(rs));
        assert(sizes_of(rs).take(n as int) =~= sizes_of(rs));
        assert(server_keys_of(rs).take(n as int) =~= server_keys_of(rs));
        assert(proto_keys_of(rs).take(n as int) =~= proto_keys_of(rs));
    }
    let time_min_us = vec_min(&tv);
    let time_max_us = vec_max(&tv);
    let time_total_us = vec_sum(&tv);
    let size_min = vec_min(&sv);
    let size_max = vec_max(&sv);
    let size_total = vec_sum(&sv);
    // median from the sorted times
    let sorted = sort_values(tv);
    proof {
        lemma_sorted_of_props(times_of(rs));
    }
    let time_median_num_us: u128;
    let time_median_den: u64;
    if n % 2 == 1 {
        time_median_num_us = sorted[n / 2] as u128;
        time_median_den = 1;
    } else {
        time_median_num_us = sorted[n / 2 - 1] as u128 + sorted[n / 2] as u128;
        time_median_den = 2;
    }
    // groupings, ordered by descending count
    let sg0 = build_counts(&skeys);
    let server_counts = sort_groups(sg0);
    proof {
        lemma_perm_group_props(sg0@, server_counts@, server_keys_of(rs));
    }
    let pg0 = build_counts(&pkeys);
    let protocol_counts = sort_groups(pg0);
    proof {
        lemma_perm_group_props(pg0@, protocol_counts@, proto_keys_of(rs));
    }
    Report {
        count: n,
        time_min_us,
        time_max_us,
        time_total_us,
        time_median_num_us,
        time_median_den,
        size_min,
        size_max,
        size_total,
        server_counts,
        protocol_counts,
    }
}

/// The mean and the median lie between the minimum and the maximum, for
/// the query times and the response sizes alike: with `n` records,
/// `n·min ≤ total ≤ n·max`, and for the median fraction
/// `den·min ≤ num ≤ den·max`.
pub proof fn lemma_report_bounds(rs: Seq<RecordModel>)
    requires
        rs.len() > 0,
    ensures
        seq_min(times_of(rs)) * rs.len() <= seq_sum(times_of(rs)) <= seq_max(times_of(rs))
            * rs.len(),
        median_den(times_of(rs)) * seq_min(times_of(rs)) <= median_num(times_of(rs))
            <= median_den(times_of(rs)) * seq_max(times_of(rs)),
        seq_min(sizes_of(rs)) * rs.len() <= seq_sum(sizes_of(rs)) <= seq_max(sizes_of(rs))
            * rs.len(),
{
    lemma_sum_bounds(times_of(rs));
    lemma_median_bounds(times_of(rs));
    lemma_sum_bounds(sizes_of(rs));
}

proof fn lemma_map_values_multiset<A, B>(s1: Seq<A>, s2: Seq<A>, f: spec_fn(A) -> B)
    requires
        s1.to_multiset() == s2.to_multiset(),
    ensures
        s1.map_values(f).to_multiset() == s2.map_values(f).to_multiset(),
    decreases s1.len(),
{
    broadcast use vstd::seq_lib::group_to_multiset_ensures;
    broadcast use vstd::multiset::group_multiset_axioms;

    if s1.len() > 0 {
        let x = s1.last();
        assert(s1.contains(x));
        assert(s2.to_multiset().count(x) > 0);
        assert(s2.contains(x));
        let j = choose|j: int| 0 <= j < s2.len() && s2[j] == x;
        assert(s1 =~= s1.drop_last().push(x));
        assert(s1.to_multiset() =~= s1.drop_last().to_multiset().insert(x));
        assert(s2.remove(j).to_multiset() =~= s2.to_multiset().remove(x));
        assert(s1.drop_last().to_multiset() =~= s2.remove(j).to_multiset());
        lemma_map_values_multiset(s1.drop_last(), s2.remove(j), f);
        assert(s1.map_values(f) =~= s1.drop_last().map_values(f).push(f(x)));
        assert(s2.remove(j).map_values(f) =~= s2.map_values(f).remove(j));
        assert(s1.map_values(f).to_multiset() =~= s1.drop_last().map_values(
            f,
        ).to_multiset().insert(f(x)));
        assert(s2.map_values(f).remove(j).to_multiset() =~= s2.map_values(
            f,
        ).to_multiset().remove(s2.map_values(f)[j]));
        assert(s2.map_values(f)[j] == f(x));
        assert(s2.map_values(f).to_multiset() =~= s2.map_values(f).remove(j).to_multiset().insert(
            f(x),
        ));
        assert(s1.map_values(f).to_multiset() =~= s2.map_values(f).to_multiset());
    } else {
        if s2.len() > 0 {
            assert(s2.contains(s2[0]));
            assert(s1.to_multiset().count(s2[0]) > 0);
            assert(false);
        }
        assert(s1.map_values(f) =~= Seq::<B>::empty());
        assert(s2.map_values(f) =~= Seq::<B>::empty());
    }
}

/// Aggregation does not depend on the order of the records: two collections
/// holding the same records have the same minimum, maximum, total and
/// median for times and sizes, and the same count under every grouping key.
pub proof fn lemma_aggregate_order_independent(rs1: Seq<RecordModel>, rs2: Seq<RecordModel>)
    requires
        rs1.len() > 0,
        rs1.to_multiset() == rs2.to_multiset(),
    ensures
        rs2.len() == rs1.len(),
        seq_min(times_of(rs1)) == seq_min(times_of(rs2)),
        seq_max(times_of(rs1)) == seq_max(times_of(rs2)),
        seq_sum(times_of(rs1)) == seq_sum(times_of(rs2)),
        median_num(times_of(rs1)) == median_num(times_of(rs2)),
        median_den(times_of(rs1)) == median_den(times_of(rs2)),
        seq_min(sizes_of(rs1)) == seq_min(sizes_of(rs2)),
        seq_max(sizes_of(rs1)) == seq_max(sizes_of(rs2)),
        seq_sum(sizes_of(rs1)) == seq_sum(sizes_of(rs2)),
        forall|k: Seq<char>|
            count_of(server_keys_of(rs1), k) == count_of(#[trigger] server_keys_of(rs2), k),
        forall|k: Seq<char>|
            count_of(proto_keys_of(rs1), k) == count_of(#[trigger] proto_keys_of(rs2), k),
{
    broadcast use vstd::seq_lib::group_to_multiset_ensures;

    assert(rs1.to_multiset().len() == rs1.len());
    lemma_map_values_multiset(rs1, rs2, |r: RecordModel| r.query_time_us);
    lemma_stats_permutation(times_of(rs1), times_of(rs2));
    lemma_map_values_multiset(rs1, rs2, |r: RecordModel| r.response_size_bytes as u64);
    lemma_stats_permutation(sizes_of(rs1), sizes_of(rs2));
    lemma_map_values_multiset(rs1, rs2, |r: RecordModel| server_key_spec(r));
    lemma_map_values_multiset(rs1, rs2, |r: RecordModel| r.protocol);
    assert forall|k: Seq<char>|
        count_of(server_keys_of(rs1), k) == count_of(#[trigger] server_keys_of(rs2), k) by {
        lemma_count_of_permutation(server_keys_of(rs1), server_keys_of(rs2), k);
    }
    assert forall|k: Seq<char>|
        count_of(proto_keys_of(rs1), k) == count_of(#[trigger] proto_keys_of(rs2), k) by {
        lemma_count_of_permutation(proto_keys_of(rs1), proto_keys_of(rs2), k);
    }
}

} // verus!

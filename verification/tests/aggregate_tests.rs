use kdig_stats::extract::Record;
use kdig_stats::report::aggregate;

fn rec(time_us: u64, size: u32, server: &str, port: u16, proto: &str) -> Record {
    Record {
        query_time_us: time_us,
        response_size_bytes: size,
        server: server.to_string(),
        port,
        protocol: proto.to_string(),
    }
}

#[test]
fn three_records_stats() {
    // query times 10.0, 20.0, 30.0 ms
    let records = vec![
        rec(10_000, 100, "8.8.8.8", 53, "UDP"),
        rec(20_000, 200, "8.8.8.8", 53, "UDP"),
        rec(30_000, 300, "1.1.1.1", 53, "TCP"),
    ];
    let r = aggregate(&records);
    assert_eq!(r.count, 3);
    assert_eq!(r.time_min_us, 10_000);
    assert_eq!(r.time_max_us, 30_000);
    // mean 20.0 ms: total / count
    assert_eq!(r.time_total_us, 60_000);
    let mean_ms = r.time_total_us as f64 / r.count as f64 / 1000.0;
    assert!((mean_ms - 20.0).abs() < 1e-9);
    // odd count: median is the middle value, 20.0 ms
    assert_eq!(r.time_median_num_us, 20_000);
    assert_eq!(r.time_median_den, 1);
}

#[test]
fn four_records_median_is_mean_of_middles() {
    // query times 1.0, 2.0, 3.0, 4.0 ms -> median (2.0 + 3.0) / 2 = 2.5 ms
    let records = vec![
        rec(4_000, 1, "a", 1, "UDP"),
        rec(1_000, 1, "a", 1, "UDP"),
        rec(3_000, 1, "a", 1, "UDP"),
        rec(2_000, 1, "a", 1, "UDP"),
    ];
    let r = aggregate(&records);
    assert_eq!(r.time_median_num_us, 5_000);
    assert_eq!(r.time_median_den, 2);
    let median_ms = r.time_median_num_us as f64 / r.time_median_den as f64 / 1000.0;
    assert!((median_ms - 2.5).abs() < 1e-9);
}

#[test]
fn median_matches_reference_sort_and_index() {
    let times: Vec<u64> = vec![17, 3, 99, 42, 8, 8, 23];
    let records: Vec<Record> = times
        .iter()
        .map(|t| rec(*t, 1, "s", 1, "UDP"))
        .collect();
    let r = aggregate(&records);
    // independent reference: sort, then index
    let mut sorted = times.clone();
    sorted.sort();
    let n = sorted.len();
    let (num, den) = if n % 2 == 1 {
        (sorted[n / 2] as u128, 1u64)
    } else {
        (sorted[n / 2 - 1] as u128 + sorted[n / 2] as u128, 2u64)
    };
    assert_eq!(r.time_median_num_us, num);
    assert_eq!(r.time_median_den, den);
}

#[test]
fn server_grouping_counts_and_order() {
    let records = vec![
        rec(1_000, 1, "1.1.1.1", 53, "UDP"),
        rec(2_000, 1, "8.8.8.8", 53, "UDP"),
        rec(3_000, 1, "8.8.8.8", 53, "TCP"),
    ];
    let r = aggregate(&records);
    assert_eq!(r.server_counts.len(), 2);
    assert_eq!(r.server_counts[0].0, "8.8.8.8:53");
    assert_eq!(r.server_counts[0].1, 2);
    assert_eq!(r.server_counts[1].0, "1.1.1.1:53");
    assert_eq!(r.server_counts[1].1, 1);
}

#[test]
fn protocol_grouping_counts() {
    let records = vec![
        rec(1_000, 1, "a", 1, "UDP"),
        rec(2_000, 1, "b", 2, "TCP"),
        rec(3_000, 1, "c", 3, "UDP"),
        rec(4_000, 1, "d", 4, "UDP"),
    ];
    let r = aggregate(&records);
    assert_eq!(r.protocol_counts.len(), 2);
    assert_eq!(r.protocol_counts[0].0, "UDP");
    assert_eq!(r.protocol_counts[0].1, 3);
    assert_eq!(r.protocol_counts[1].0, "TCP");
    assert_eq!(r.protocol_counts[1].1, 1);
}

#[test]
fn size_statistics() {
    let records = vec![
        rec(1_000, 84, "a", 1, "UDP"),
        rec(2_000, 32, "a", 1, "UDP"),
        rec(3_000, 512, "a", 1, "UDP"),
    ];
    let r = aggregate(&records);
    assert_eq!(r.size_min, 32);
    assert_eq!(r.size_max, 512);
    assert_eq!(r.size_total, 628);
}

#[test]
fn single_record_stats() {
    let records = vec![rec(7_500, 84, "h", 53, "UDP")];
    let r = aggregate(&records);
    assert_eq!(r.count, 1);
    assert_eq!(r.time_min_us, 7_500);
    assert_eq!(r.time_max_us, 7_500);
    assert_eq!(r.time_median_num_us, 7_500);
    assert_eq!(r.time_median_den, 1);
    assert_eq!(r.server_counts.len(), 1);
    assert_eq!(r.server_counts[0].0, "h:53");
}

#[test]
fn equal_times_and_duplicate_keys() {
    let records = vec![
        rec(5_000, 10, "x", 53, "UDP"),
        rec(5_000, 10, "x", 53, "UDP"),
    ];
    let r = aggregate(&records);
    assert_eq!(r.time_min_us, 5_000);
    assert_eq!(r.time_max_us, 5_000);
    assert_eq!(r.time_median_num_us, 10_000);
    assert_eq!(r.time_median_den, 2);
    assert_eq!(r.server_counts.len(), 1);
    assert_eq!(r.server_counts[0].1, 2);
}

#[test]
fn reordering_records_keeps_statistics() {
    let a = vec![
        rec(1_000, 5, "a", 1, "UDP"),
        rec(9_000, 50, "b", 2, "TCP"),
        rec(4_000, 20, "a", 1, "UDP"),
    ];
    let b = vec![a[2].clone(), a[0].clone(), a[1].clone()];
    let ra = aggregate(&a);
    let rb = aggregate(&b);
    assert_eq!(ra.time_min_us, rb.time_min_us);
    assert_eq!(ra.time_max_us, rb.time_max_us);
    assert_eq!(ra.time_total_us, rb.time_total_us);
    assert_eq!(ra.time_median_num_us, rb.time_median_num_us);
    assert_eq!(ra.time_median_den, rb.time_median_den);
    assert_eq!(ra.size_min, rb.size_min);
    assert_eq!(ra.size_max, rb.size_max);
    assert_eq!(ra.size_total, rb.size_total);
    // the same counts per key, whatever the entry order
    for (k, c) in &ra.server_counts {
        assert!(rb.server_counts.iter().any(|(k2, c2)| k2 == k && c2 == c));
    }
    assert_eq!(ra.server_counts.len(), rb.server_counts.len());
}

#[test]
fn pipeline_from_texts_to_report() {
    let texts = [
        ";; From 8.8.8.8@53(UDP) in 10.0 ms\n;; Received 100 B\n",
        ";; Received 100 B\nno from line here\n",
        ";; From 8.8.8.8@53(UDP) in 30.0 ms\n;; Received 300 B\n",
    ];
    let mut records = Vec::new();
    let mut skipped = 0;
    for t in texts.iter() {
        match kdig_stats::extract::extract(t) {
            Some(r) => records.push(r),
            None => skipped += 1,
        }
    }
    assert_eq!(skipped, 1);
    assert_eq!(records.len(), 2);
    let r = aggregate(&records);
    assert_eq!(r.time_min_us, 10_000);
    assert_eq!(r.time_max_us, 30_000);
    assert_eq!(r.time_total_us, 40_000);
    assert_eq!(r.size_total, 400);
}

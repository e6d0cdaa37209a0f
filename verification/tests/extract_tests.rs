use kdig_stats::extract::extract;

#[test]
fn full_record_is_extracted() {
    let text = ";; From 127.0.0.1@53(UDP) in 12.5 ms\n;; Received 84 B\n";
    let rec = extract(text).expect("record expected");
    assert_eq!(rec.query_time_us, 12_500);
    assert_eq!(rec.response_size_bytes, 84);
    assert_eq!(rec.server, "127.0.0.1");
    assert_eq!(rec.port, 53);
    assert_eq!(rec.protocol, "UDP");
}

#[test]
fn received_line_alone_is_absent() {
    let text = ";; Received 100 B\n";
    assert!(extract(text).is_none());
}

#[test]
fn from_line_alone_is_absent() {
    let text = ";; From 8.8.8.8@53(UDP) in 3.0 ms\n";
    assert!(extract(text).is_none());
}

#[test]
fn empty_text_is_absent() {
    assert!(extract("").is_none());
}

#[test]
fn unrelated_text_is_absent() {
    let text = "hello world\nnothing to see here\n";
    assert!(extract(text).is_none());
}

#[test]
fn last_received_line_wins() {
    let text = ";; Received 10 B\n;; From 1.1.1.1@53(UDP) in 1.0 ms\n;; Received 99 B\n";
    let rec = extract(text).expect("record expected");
    assert_eq!(rec.response_size_bytes, 99);
}

#[test]
fn last_from_line_wins() {
    let text = ";; From 1.1.1.1@53(UDP) in 1.0 ms\n;; Received 42 B\n;; From 9.9.9.9@853(TLS) in 7.25 ms\n";
    let rec = extract(text).expect("record expected");
    assert_eq!(rec.server, "9.9.9.9");
    assert_eq!(rec.port, 853);
    assert_eq!(rec.protocol, "TLS");
    assert_eq!(rec.query_time_us, 7_250);
    assert_eq!(rec.response_size_bytes, 42);
}

#[test]
fn leftmost_match_in_one_line_wins() {
    let text = ";; Received 1 B ;; Received 2 B\n;; From 1.1.1.1@53(UDP) in 1.0 ms\n";
    let rec = extract(text).expect("record expected");
    assert_eq!(rec.response_size_bytes, 1);
}

#[test]
fn server_and_protocol_are_trimmed() {
    let text = ";; From   dns.example.com @53( TCP ) in 5 ms\n;; Received 512 B\n";
    let rec = extract(text).expect("record expected");
    assert_eq!(rec.server, "dns.example.com");
    assert_eq!(rec.protocol, "TCP");
}

#[test]
fn integer_time_and_trailing_zeros() {
    let text = ";; From a@1(UDP) in 5 ms\n;; Received 1 B\n";
    assert_eq!(extract(text).unwrap().query_time_us, 5_000);
    let text2 = ";; From a@1(UDP) in 12.500 ms\n;; Received 1 B\n";
    assert_eq!(extract(text2).unwrap().query_time_us, 12_500);
    let text3 = ";; From a@1(UDP) in .5 ms\n;; Received 1 B\n";
    assert_eq!(extract(text3).unwrap().query_time_us, 500);
    let text4 = ";; From a@1(UDP) in 7. ms\n;; Received 1 B\n";
    assert_eq!(extract(text4).unwrap().query_time_us, 7_000);
}

#[test]
fn malformed_time_leaves_field_unset() {
    // two dots do not parse; with no other time line the record is absent
    let text = ";; From a@1(UDP) in 1.2.3 ms\n;; Received 1 B\n";
    assert!(extract(text).is_none());
    // a bare dot has no digits
    let text2 = ";; From a@1(UDP) in . ms\n;; Received 1 B\n";
    assert!(extract(text2).is_none());
}

#[test]
fn earlier_time_survives_later_parse_failure() {
    // the later From line matches and overwrites server and protocol, but
    // its unparseable time leaves the earlier time in place
    let text = ";; From 1.1.1.1@53(UDP) in 4.5 ms\n;; Received 33 B\n;; From 2.2.2.2@53(TCP) in 1..0 ms\n";
    let rec = extract(text).expect("record expected");
    assert_eq!(rec.server, "2.2.2.2");
    assert_eq!(rec.protocol, "TCP");
    assert_eq!(rec.query_time_us, 4_500);
}

#[test]
fn port_overflow_leaves_field_unset() {
    let text = ";; From a@70000(UDP) in 1.0 ms\n;; Received 1 B\n";
    assert!(extract(text).is_none());
}

#[test]
fn size_overflow_leaves_field_unset() {
    let text = ";; From a@1(UDP) in 1.0 ms\n;; Received 4294967296 B\n";
    assert!(extract(text).is_none());
}

#[test]
fn crlf_line_endings_are_handled() {
    let text = ";; From 127.0.0.1@53(UDP) in 12.5 ms\r\n;; Received 84 B\r\n";
    let rec = extract(text).expect("record expected");
    assert_eq!(rec.query_time_us, 12_500);
    assert_eq!(rec.response_size_bytes, 84);
}

#[test]
fn patterns_anywhere_in_a_line_match() {
    let text = "note ;; Received 7 B tail\nx ;; From h@5353(UDP) in 0.125 ms y\n";
    let rec = extract(text).expect("record expected");
    assert_eq!(rec.response_size_bytes, 7);
    assert_eq!(rec.port, 5353);
    assert_eq!(rec.query_time_us, 125);
}

#[test]
fn missing_literal_tokens_do_not_match() {
    // no "B" unit, no "ms" unit
    let text = ";; Received 84\n;; From a@1(UDP) in 1.0\n";
    assert!(extract(text).is_none());
}

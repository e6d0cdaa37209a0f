//! Record extraction: scanning the lines of one capture file for the two
//! patterns and keeping the last value each line sets.

use vstd::prelude::*;
use crate::text::{spec_lines, spec_trim, split_lines, to_chars, trimmed_of};
use crate::numbers::{digits_val, time_value_micros, parse_digits, parse_time_micros};
use crate::pattern::{
    line_a, line_b, find_a, find_b, lemma_line_a_bounds, lemma_line_b_bounds,
};

verus! {

/// One fully extracted set of query metrics from a single capture file.
/// The query time is held in whole microseconds (thousandths of the
/// millisecond value printed by the tool).
pub struct Record {
    pub query_time_us: u64,
    pub response_size_bytes: u32,
    pub server: String,
    pub port: u16,
    pub protocol: String,
}

impl Clone for Record {
    fn clone(&self) -> (res: Self)
        ensures
            res == *self,
    {
        Record {
            query_time_us: self.query_time_us,
            response_size_bytes: self.response_size_bytes,
            server: self.server.clone(),
            port: self.port,
            protocol: self.protocol.clone(),
        }
    }
}

/// The mathematical content of a `Record`.
pub struct RecordModel {
    pub query_time_us: u64,
    pub response_size_bytes: u32,
    pub server: Seq<char>,
    pub port: u16,
    pub protocol: Seq<char>,
}

impl View for Record {
    type V = RecordModel;

    open spec fn view(&self) -> RecordModel {
        RecordModel {
            query_time_us: self.query_time_us,
            response_size_bytes: self.response_size_bytes,
            server: self.server@,
            port: self.port,
            protocol: self.protocol@,
        }
    }
}

/// What a pattern-A match of this line sets the response size to:
/// the digit capture, when it fits the field.
pub open spec fn line_size(ln: Seq<char>) -> Option<u32> {
    match line_a(ln) {
        Some(sp) => {
            let dv = digits_val(ln.subrange(sp.0, sp.1));
            if dv <= u32::MAX {
                Some(dv as u32)
            } else {
                None
            }
        },
        None => None,
    }
}

/// What a pattern-B match of this line sets the server to: the trimmed capture.
pub open spec fn line_server(ln: Seq<char>) -> Option<Seq<char>> {
    match line_b(ln) {
        Some(m) => Some(spec_trim(ln.subrange(m.server_lo, m.server_hi))),
        None => None,
    }
}

/// What a pattern-B match of this line sets the protocol to: the trimmed capture.
pub open spec fn line_proto(ln: Seq<char>) -> Option<Seq<char>> {
    match line_b(ln) {
        Some(m) => Some(spec_trim(ln.subrange(m.proto_lo, m.proto_hi))),
        None => None,
    }
}

/// What a pattern-B match of this line sets the port to, when the digit
/// capture fits the field.
pub open spec fn line_port(ln: Seq<char>) -> Option<u16> {
    match line_b(ln) {
        Some(m) => {
            let dv = digits_val(ln.subrange(m.port_lo, m.port_hi));
            if dv <= u16::MAX {
                Some(dv as u16)
            } else {
                None
            }
        },
        None => None,
    }
}

/// What a pattern-B match of this line sets the query time to, when the
/// time capture is a whole, representable number of microseconds.
pub open spec fn line_time(ln: Seq<char>) -> Option<u64> {
    match line_b(ln) {
        Some(m) => {
            let tv = time_value_micros(ln.subrange(m.time_lo, m.time_hi));
            if tv is Some && 0 <= tv->Some_0 <= u64::MAX {
                Some(tv->Some_0 as u64)
            } else {
                None
            }
        },
        None => None,
    }
}

/// The five fields while a file is being scanned; each is set independently.
pub struct FieldsSpec {
    pub size: Option<u32>,
    pub server: Option<Seq<char>>,
    pub port: Option<u16>,
    pub proto: Option<Seq<char>>,
    pub time: Option<u64>,
}

/// One line of the scan: each field a line sets overwrites the earlier value.
pub open spec fn scan_line(st: FieldsSpec, ln: Seq<char>) -> FieldsSpec {
    FieldsSpec {
        size: match line_size(ln) {
            Some(x) => Some(x),
            None => st.size,
        },
        server: match line_server(ln) {
            Some(x) => Some(x),
            None => st.server,
        },
        port: match line_port(ln) {
            Some(x) => Some(x),
            None => st.port,
        },
        proto: match line_proto(ln) {
            Some(x) => Some(x),
            None => st.proto,
        },
        time: match line_time(ln) {
            Some(x) => Some(x),
            None => st.time,
        },
    }
}

/// The scan over all lines, in order.
pub open spec fn scan_lines(lns: Seq<Seq<char>>) -> FieldsSpec
    decreases lns.len(),
{
    if lns.len() == 0 {
        FieldsSpec { size: None, server: None, port: None, proto: None, time: None }
    } else {
        scan_line(scan_lines(lns.drop_last()), lns.last())
    }
}

/// The record a text yields: present exactly when, after scanning every
/// line, all five fields were set.
pub open spec fn extract_spec(t: Seq<char>) -> Option<RecordModel> {
    let st = scan_lines(spec_lines(t));
    if st.size is Some && st.server is Some && st.port is Some && st.proto is Some && st.time
        is Some {
        Some(
            RecordModel {
                query_time_us: st.time->Some_0,
                response_size_bytes: st.size->Some_0,
                server: st.server->Some_0,
                port: st.port->Some_0,
                protocol: st.proto->Some_0,
            },
        )
    } else {
        None
    }
}

/// Extracts the record of a capture file's text, if the text holds both
/// pattern lines with parseable numbers; the last match of each pattern wins.
pub fn extract(text: &str) -> (r: Option<Record>)
    ensures
        match r {
            Some(rec) => extract_spec(text@) == Some(rec@),
            None => extract_spec(text@) is None,
        },
{
    let lines = split_lines(text);
    let ghost lns = spec_lines(text@);
    let mut size: Option<u32> = None;
    let mut server: Option<String> = None;
    let mut port: Option<u16> = None;
    let mut proto: Option<String> = None;
    let mut time: Option<u64> = None;
    proof {
        assert(lns.take(0) =~= Seq::<Seq<char>>::empty());
    }
    let n = lines.len();
    for k in 0..n
        invariant
            n == lines.len(),
            lines@.map_values(|l: String| l@) == lns,
            lns == spec_lines(text@),
            ({
                let st = scan_lines(lns.take(k as int));
                &&& st.size == size
                &&& st.port == port
                &&& st.time == time
                &&& (st.server is Some <==> server is Some)
                &&& (server is Some ==> st.server == Some(server->Some_0@))
                &&& (st.proto is Some <==> proto is Some)
                &&& (proto is Some ==> st.proto == Some(proto->Some_0@))
            }),
    {
        let line = &lines[k];
        let lv = to_chars(line.as_str());
        let ghost ln = lns[k as int];
        proof {
            assert(lines@.map_values(|l: String| l@)[k as int] == ln);
            assert(lv@ == ln);
        }
        match find_a(&lv) {
            Some((lo, hi)) => {
                proof {
                    lemma_line_a_bounds(ln);
                }
                match parse_digits(&lv, lo, hi, 0xffff_ffff) {
                    Some(x) => {
                        size = Some(x as u32);
                    },
                    None => {},
                }
            },
            None => {},
        }
        match find_b(&lv) {
            Some((slo, shi, plo, phi, clo, chi, tlo, thi)) => {
                proof {
                    lemma_line_b_bounds(ln);
                }
                server = Some(trimmed_of(line.as_str(), &lv, slo, shi));
                proto = Some(trimmed_of(line.as_str(), &lv, clo, chi));
                match parse_digits(&lv, plo, phi, 0xffff) {
                    Some(x) => {
                        port = Some(x as u16);
                    },
                    None => {},
                }
                match parse_time_micros(&lv, tlo, thi) {
                    Some(x) => {
                        time = Some(x);
                    },
                    None => {},
                }
            },
            None => {},
        }
        proof {
            assert(lns.take(k + 1).drop_last() =~= lns.take(k as int));
            assert(lns.take(k + 1).last() == ln);
            assert(scan_lines(lns.take(k + 1)) == scan_line(scan_lines(lns.take(k as int)), ln));
        }
    }
    proof {
        assert(lns.take(n as int) =~= lns);
    }
    match (size, server, port, proto, time) {
        (Some(sz), Some(srv), Some(pt), Some(pr), Some(tm)) => Some(
            Record {
                query_time_us: tm,
                response_size_bytes: sz,
                server: srv,
                port: pt,
                protocol: pr,
            },
        ),
        _ => None,
    }
}

/// Last match wins for the response size: when line `i` is the last line
/// that sets the size, the whole scan holds that line's value — not an
/// earlier one.
pub proof fn lemma_size_last_match(lns: Seq<Seq<char>>, i: int)
    requires
        0 <= i < lns.len(),
        line_size(lns[i]) is Some,
        forall|k: int| i < k < lns.len() ==> line_size(#[trigger] lns[k]) is None,
    ensures
        scan_lines(lns).size == line_size(lns[i]),
    decreases lns.len(),
{
    if i == lns.len() - 1 {
    } else {
        assert(line_size(lns.last()) is None);
        assert(lns.drop_last()[i] == lns[i]);
        lemma_size_last_match(lns.drop_last(), i);
    }
}

/// Last match wins for the four fields of the `From` line: when line `j` is
/// the last line matching pattern B and its port and time parse, the whole
/// scan holds that line's values — not an earlier line's.
pub proof fn lemma_from_last_match(lns: Seq<Seq<char>>, j: int)
    requires
        0 <= j < lns.len(),
        line_b(lns[j]) is Some,
        line_port(lns[j]) is Some,
        line_time(lns[j]) is Some,
        forall|k: int| j < k < lns.len() ==> line_b(#[trigger] lns[k]) is None,
    ensures
        scan_lines(lns).server == line_server(lns[j]),
        scan_lines(lns).proto == line_proto(lns[j]),
        scan_lines(lns).port == line_port(lns[j]),
        scan_lines(lns).time == line_time(lns[j]),
    decreases lns.len(),
{
    if j == lns.len() - 1 {
    } else {
        assert(line_b(lns.last()) is None);
        assert(lns.drop_last()[j] == lns[j]);
        lemma_from_last_match(lns.drop_last(), j);
    }
}

/// Last match wins, stated of the whole text: when line `i` is the last
/// line that sets the response size and line `j` the last line matching the
/// `From` pattern, with its port and time parseable, the extracted record
/// exists and holds exactly those two lines' values.
pub proof fn lemma_extract_last_match(t: Seq<char>, i: int, j: int)
    requires
        0 <= i < spec_lines(t).len(),
        0 <= j < spec_lines(t).len(),
        line_size(spec_lines(t)[i]) is Some,
        forall|k: int|
            i < k < spec_lines(t).len() ==> line_size(#[trigger] spec_lines(t)[k]) is None,
        line_b(spec_lines(t)[j]) is Some,
        line_port(spec_lines(t)[j]) is Some,
        line_time(spec_lines(t)[j]) is Some,
        forall|k: int| j < k < spec_lines(t).len() ==> line_b(#[trigger] spec_lines(t)[k]) is None,
    ensures
        extract_spec(t) == Some(
            RecordModel {
                query_time_us: line_time(spec_lines(t)[j])->Some_0,
                response_size_bytes: line_size(spec_lines(t)[i])->Some_0,
                server: line_server(spec_lines(t)[j])->Some_0,
                port: line_port(spec_lines(t)[j])->Some_0,
                protocol: line_proto(spec_lines(t)[j])->Some_0,
            },
        ),
{
    lemma_size_last_match(spec_lines(t), i);
    lemma_from_last_match(spec_lines(t), j);
}

proof fn lemma_scan_no_a(lns: Seq<Seq<char>>)
    requires
        forall|k: int| 0 <= k < lns.len() ==> line_a(#[trigger] lns[k]) is None,
    ensures
        scan_lines(lns).size is None,
    decreases lns.len(),
{
    if lns.len() > 0 {
        assert(forall|k: int|
            0 <= k < lns.drop_last().len() ==> #[trigger] lns.drop_last()[k] == lns[k]);
        lemma_scan_no_a(lns.drop_last());
        assert(line_a(lns.last()) is None);
    }
}

proof fn lemma_scan_no_b(lns: Seq<Seq<char>>)
    requires
        forall|k: int| 0 <= k < lns.len() ==> line_b(#[trigger] lns[k]) is None,
    ensures
        scan_lines(lns).server is None,
    decreases lns.len(),
{
    if lns.len() > 0 {
        assert(forall|k: int|
            0 <= k < lns.drop_last().len() ==> #[trigger] lns.drop_last()[k] == lns[k]);
        lemma_scan_no_b(lns.drop_last());
        assert(line_b(lns.last()) is None);
    }
}

/// A text in which no line matches pattern A, or none matches pattern B,
/// yields no record.
pub proof fn lemma_missing_line_absent(t: Seq<char>)
    requires
        (forall|k: int|
            0 <= k < spec_lines(t).len() ==> line_a(#[trigger] spec_lines(t)[k]) is None) || (
        forall|k: int|
            0 <= k < spec_lines(t).len() ==> line_b(#[trigger] spec_lines(t)[k]) is None),
    ensures
        extract_spec(t) is None,
{
    if forall|k: int|
        0 <= k < spec_lines(t).len() ==> line_a(#[trigger] spec_lines(t)[k]) is None {
        lemma_scan_no_a(spec_lines(t));
    } else {
        lemma_scan_no_b(spec_lines(t));
    }
}

} // verus!

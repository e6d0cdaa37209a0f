//! The two line patterns of `kdig` console output.
//!
//! Pattern A: `;; Received <N> B` — `<N>` one or more digits.
//! Pattern B: `;; From <server>@<port>(<protocol>) in <time> ms` —
//! `<server>` one or more characters other than `@`, `<port>` one or more
//! digits, `<protocol>` one or more characters other than `)`, `<time>` a
//! decimal number of digits and at most one dot.
//!
//! A pattern may start anywhere in a line (the leftmost start wins), the
//! gaps are one or more whitespace characters, and each run (whitespace,
//! digits, the delimited captures) is maximal. Both facts together make the
//! match at a given start position deterministic, which is how the spec
//! functions below describe it.

use vstd::prelude::*;
use crate::text::{
    is_ws_char, is_digit_char, is_time_char, ws_end, digits_end, time_chars_end, seek_char,
    has_lit, find_ws_end, find_digits_end, find_time_chars_end, find_char, lit_at,
};

verus! {

pub open spec fn lit_semis() -> Seq<char> {
    seq![';', ';']
}

pub open spec fn lit_received() -> Seq<char> {
    seq!['R', 'e', 'c', 'e', 'i', 'v', 'e', 'd']
}

pub open spec fn lit_from() -> Seq<char> {
    seq!['F', 'r', 'o', 'm']
}

pub open spec fn lit_in() -> Seq<char> {
    seq!['i', 'n']
}

pub open spec fn lit_ms() -> Seq<char> {
    seq!['m', 's']
}

/// A match of pattern A starting exactly at `i`: the digit capture `[lo, hi)`.
pub open spec fn match_a_at(ln: Seq<char>, i: int) -> Option<(int, int)> {
    if !has_lit(ln, i, lit_semis()) {
        None
    } else {
        let p2 = ws_end(ln, i + 2);
        if p2 == i + 2 || !has_lit(ln, p2, lit_received()) {
            None
        } else {
            let p4 = ws_end(ln, p2 + 8);
            if p4 == p2 + 8 {
                None
            } else {
                let p5 = digits_end(ln, p4);
                if p5 == p4 {
                    None
                } else {
                    let p6 = ws_end(ln, p5);
                    if p6 == p5 {
                        None
                    } else if p6 < ln.len() && ln[p6] == 'B' {
                        Some((p4, p5))
                    } else {
                        None
                    }
                }
            }
        }
    }
}

/// The capture spans of a match of pattern B.
pub struct SpansB {
    pub server_lo: int,
    pub server_hi: int,
    pub port_lo: int,
    pub port_hi: int,
    pub proto_lo: int,
    pub proto_hi: int,
    pub time_lo: int,
    pub time_hi: int,
}

/// A match of pattern B starting exactly at `i`.
///
/// The server capture runs from the end of the whitespace gap to the first
/// `@`; when everything up to that `@` is whitespace, the gap gives up its
/// last character so that the capture is non-empty.
pub open spec fn match_b_at(ln: Seq<char>, i: int) -> Option<SpansB> {
    if !has_lit(ln, i, lit_semis()) {
        None
    } else {
        let p2 = ws_end(ln, i + 2);
        if p2 == i + 2 || !has_lit(ln, p2, lit_from()) {
            None
        } else {
            let f = p2 + 4;
            let w = ws_end(ln, f);
            let a = seek_char(ln, f, '@');
            if w == f || a >= ln.len() || a < f + 2 {
                None
            } else {
                let slo = if w < a {
                    w
                } else {
                    a - 1
                };
                let pd = digits_end(ln, a + 1);
                if pd == a + 1 || !(pd < ln.len() && ln[pd] == '(') {
                    None
                } else {
                    let b = seek_char(ln, pd + 1, ')');
                    if b >= ln.len() || b < pd + 2 {
                        None
                    } else {
                        let w1 = ws_end(ln, b + 1);
                        if w1 == b + 1 || !has_lit(ln, w1, lit_in()) {
                            None
                        } else {
                            let w2 = ws_end(ln, w1 + 2);
                            if w2 == w1 + 2 {
                                None
                            } else {
                                let t = time_chars_end(ln, w2);
                                if t == w2 {
                                    None
                                } else {
                                    let w3 = ws_end(ln, t);
                                    if w3 == t || !has_lit(ln, w3, lit_ms()) {
                                        None
                                    } else {
                                        Some(
                                            SpansB {
                                                server_lo: slo,
                                                server_hi: a,
                                                port_lo: a + 1,
                                                port_hi: pd,
                                                proto_lo: pd + 1,
                                                proto_hi: b,
                                                time_lo: w2,
                                                time_hi: t,
                                            },
                                        )
                                    }
                                }
                            }
                        }
                    }
                }
            }
        }
    }
}

/// The leftmost match of pattern A at or after `i`.
pub open spec fn first_a_from(ln: Seq<char>, i: int) -> Option<(int, int)>
    decreases ln.len() - i,
{
    if 0 <= i <= ln.len() {
        if match_a_at(ln, i) is Some {
            match_a_at(ln, i)
        } else if i < ln.len() {
            first_a_from(ln, i + 1)
        } else {
            None
        }
    } else {
        None
    }
}

/// The leftmost match of pattern B at or after `i`.
pub open spec fn first_b_from(ln: Seq<char>, i: int) -> Option<SpansB>
    decreases ln.len() - i,
{
    if 0 <= i <= ln.len() {
        if match_b_at(ln, i) is Some {
            match_b_at(ln, i)
        } else if i < ln.len() {
            first_b_from(ln, i + 1)
        } else {
            None
        }
    } else {
        None
    }
}

/// The match of pattern A in a line, if any: its digit capture.
pub open spec fn line_a(ln: Seq<char>) -> Option<(int, int)> {
    first_a_from(ln, 0)
}

/// The match of pattern B in a line, if any: its capture spans.
pub open spec fn line_b(ln: Seq<char>) -> Option<SpansB> {
    first_b_from(ln, 0)
}

pub proof fn lemma_match_a_at_bounds(ln: Seq<char>, i: int)
    requires
        match_a_at(ln, i) is Some,
    ensures
        0 <= i <= match_a_at(ln, i)->Some_0.0 < match_a_at(ln, i)->Some_0.1 <= ln.len(),
        forall|q: int|
            match_a_at(ln, i)->Some_0.0 <= q < match_a_at(ln, i)->Some_0.1 ==> is_digit_char(
                #[trigger] ln[q],
            ),
{
    crate::text::lemma_ws_end(ln, i + 2);
    let p2 = ws_end(ln, i + 2);
    crate::text::lemma_ws_end(ln, p2 + 8);
    let p4 = ws_end(ln, p2 + 8);
    crate::text::lemma_digits_end(ln, p4);
}

pub proof fn lemma_line_a_bounds(ln: Seq<char>)
    requires
        line_a(ln) is Some,
    ensures
        0 <= line_a(ln)->Some_0.0 < line_a(ln)->Some_0.1 <= ln.len(),
        forall|q: int|
            line_a(ln)->Some_0.0 <= q < line_a(ln)->Some_0.1 ==> is_digit_char(#[trigger] ln[q]),
{
    lemma_first_a_bounds(ln, 0);
}

proof fn lemma_first_a_bounds(ln: Seq<char>, i: int)
    requires
        0 <= i <= ln.len(),
        first_a_from(ln, i) is Some,
    ensures
        0 <= first_a_from(ln, i)->Some_0.0 < first_a_from(ln, i)->Some_0.1 <= ln.len(),
        forall|q: int|
            first_a_from(ln, i)->Some_0.0 <= q < first_a_from(ln, i)->Some_0.1 ==> is_digit_char(
                #[trigger] ln[q],
            ),
    decreases ln.len() - i,
{
    if match_a_at(ln, i) is Some {
        lemma_match_a_at_bounds(ln, i);
    } else if i < ln.len() {
        lemma_first_a_bounds(ln, i + 1);
    }
}

pub proof fn lemma_match_b_at_bounds(ln: Seq<char>, i: int)
    requires
        match_b_at(ln, i) is Some,
    ensures
        ({
            let m = match_b_at(ln, i)->Some_0;
            &&& 0 <= i <= m.server_lo < m.server_hi < m.port_lo <= m.port_hi < m.proto_lo
                <= m.proto_hi < m.time_lo < m.time_hi <= ln.len()
            &&& forall|q: int| m.port_lo <= q < m.port_hi ==> is_digit_char(#[trigger] ln[q])
            &&& forall|q: int| m.time_lo <= q < m.time_hi ==> is_time_char(#[trigger] ln[q])
        }),
{
    crate::text::lemma_ws_end(ln, i + 2);
    let p2 = ws_end(ln, i + 2);
    let f = p2 + 4;
    crate::text::lemma_ws_end(ln, f);
    crate::text::lemma_seek_char(ln, f, '@');
    let a = seek_char(ln, f, '@');
    crate::text::lemma_digits_end(ln, a + 1);
    let pd = digits_end(ln, a + 1);
    crate::text::lemma_seek_char(ln, pd + 1, ')');
    let b = seek_char(ln, pd + 1, ')');
    crate::text::lemma_ws_end(ln, b + 1);
    let w1 = ws_end(ln, b + 1);
    crate::text::lemma_ws_end(ln, w1 + 2);
    let w2 = ws_end(ln, w1 + 2);
    crate::text::lemma_time_chars_end(ln, w2);
    let t = time_chars_end(ln, w2);
    crate::text::lemma_ws_end(ln, t);
}

pub proof fn lemma_line_b_bounds(ln: Seq<char>)
    requires
        line_b(ln) is Some,
    ensures
        ({
            let m = line_b(ln)->Some_0;
            &&& 0 <= m.server_lo < m.server_hi < m.port_lo <= m.port_hi < m.proto_lo
                <= m.proto_hi < m.time_lo < m.time_hi <= ln.len()
            &&& forall|q: int| m.port_lo <= q < m.port_hi ==> is_digit_char(#[trigger] ln[q])
            &&& forall|q: int| m.time_lo <= q < m.time_hi ==> is_time_char(#[trigger] ln[q])
        }),
{
    lemma_first_b_bounds(ln, 0);
}

proof fn lemma_first_b_bounds(ln: Seq<char>, i: int)
    requires
        0 <= i <= ln.len(),
        first_b_from(ln, i) is Some,
    ensures
        ({
            let m = first_b_from(ln, i)->Some_0;
            &&& 0 <= m.server_lo < m.server_hi < m.port_lo <= m.port_hi < m.proto_lo
                <= m.proto_hi < m.time_lo < m.time_hi <= ln.len()
            &&& forall|q: int| m.port_lo <= q < m.port_hi ==> is_digit_char(#[trigger] ln[q])
            &&& forall|q: int| m.time_lo <= q < m.time_hi ==> is_time_char(#[trigger] ln[q])
        }),
    decreases ln.len() - i,
{
    if match_b_at(ln, i) is Some {
        lemma_match_b_at_bounds(ln, i);
    } else if i < ln.len() {
        lemma_first_b_bounds(ln, i + 1);
    }
}

/// Tries pattern A at start position `i` of the line.
fn try_a_at(v: &Vec<char>, i: usize) -> (r: Option<(usize, usize)>)
    requires
        i <= v@.len(),
    ensures
        ({
            let m = match_a_at(v@, i as int);
            match r {
                Some(p) => m == Some((p.0 as int, p.1 as int)) && i <= p.0 <= p.1 <= v@.len(),
                None => m is None,
            }
        }),
{
    proof {
        reveal_strlit(";;");
        reveal_strlit("Received");
        assert(";;"@ =~= lit_semis());
        assert("Received"@ =~= lit_received());
    }
    let n = v.len();
    if !lit_at(v, i, ";;") {
        return None;
    }
    let p2 = find_ws_end(v, i + 2);
    if p2 == i + 2 {
        return None;
    }
    if !lit_at(v, p2, "Received") {
        return None;
    }
    let p4 = find_ws_end(v, p2 + 8);
    if p4 == p2 + 8 {
        return None;
    }
    let p5 = find_digits_end(v, p4);
    if p5 == p4 {
        return None;
    }
    let p6 = find_ws_end(v, p5);
    if p6 == p5 {
        return None;
    }
    if p6 < v.len() && v[p6] == 'B' {
        Some((p4, p5))
    } else {
        None
    }
}

/// Tries pattern B at start position `i` of the line.
fn try_b_at(v: &Vec<char>, i: usize) -> (r: Option<(usize, usize, usize, usize, usize, usize, usize, usize)>)
    requires
        i <= v@.len(),
    ensures
        ({
            let m = match_b_at(v@, i as int);
            match r {
                Some(p) => {
                    &&& m is Some
                    &&& m->Some_0 == (SpansB {
                        server_lo: p.0 as int,
                        server_hi: p.1 as int,
                        port_lo: p.2 as int,
                        port_hi: p.3 as int,
                        proto_lo: p.4 as int,
                        proto_hi: p.5 as int,
                        time_lo: p.6 as int,
                        time_hi: p.7 as int,
                    })
                    &&& p.0 <= p.1 <= v@.len() && p.2 <= p.3 <= v@.len() && p.4 <= p.5 <= v@.len()
                        && p.6 <= p.7 <= v@.len()
                },
                None => m is None,
            }
        }),
{
    proof {
        reveal_strlit(";;");
        reveal_strlit("From");
        reveal_strlit("in");
        reveal_strlit("ms");
        assert(";;"@ =~= lit_semis());
        assert("From"@ =~= lit_from());
        assert("in"@ =~= lit_in());
        assert("ms"@ =~= lit_ms());
    }
    let n = v.len();
    if !lit_at(v, i, ";;") {
        return None;
    }
    let p2 = find_ws_end(v, i + 2);
    if p2 == i + 2 {
        return None;
    }
    if !lit_at(v, p2, "From") {
        return None;
    }
    let f = p2 + 4;
    let w = find_ws_end(v, f);
    let a = find_char(v, f, '@');
    if w == f || a >= v.len() || a - f < 2 {
        return None;
    }
    let slo: usize = if w < a {
        w
    } else {
        a - 1
    };
    let pd = find_digits_end(v, a + 1);
    if pd == a + 1 {
        return None;
    }
    if !(pd < v.len() && v[pd] == '(') {
        return None;
    }
    let b = find_char(v, pd + 1, ')');
    if b >= v.len() || b < pd + 2 {
        return None;
    }
    let w1 = find_ws_end(v, b + 1);
    if w1 == b + 1 {
        return None;
    }
    if !lit_at(v, w1, "in") {
        return None;
    }
    let w2 = find_ws_end(v, w1 + 2);
    if w2 == w1 + 2 {
        return None;
    }
    let t = find_time_chars_end(v, w2);
    if t == w2 {
        return None;
    }
    let w3 = find_ws_end(v, t);
    if w3 == t {
        return None;
    }
    if !lit_at(v, w3, "ms") {
        return None;
    }
    Some((slo, a, a + 1, pd, pd + 1, b, w2, t))
}

/// The leftmost match of pattern A in the line.
pub fn find_a(v: &Vec<char>) -> (r: Option<(usize, usize)>)
    ensures
        ({
            let m = line_a(v@);
            match r {
                Some(p) => m == Some((p.0 as int, p.1 as int)) && p.0 <= p.1 <= v@.len(),
                None => m is None,
            }
        }),
{
    let mut i: usize = 0;
    loop
        invariant
            i <= v@.len(),
            first_a_from(v@, 0) == first_a_from(v@, i as int),
        decreases v@.len() - i,
    {
        let r = try_a_at(v, i);
        if r.is_some() {
            return r;
        }
        if i == v.len() {
            return None;
        }
        i = i + 1;
    }
}

/// The leftmost match of pattern B in the line.
pub fn find_b(v: &Vec<char>) -> (r: Option<(usize, usize, usize, usize, usize, usize, usize, usize)>)
    ensures
        ({
            let m = line_b(v@);
            match r {
                Some(p) => {
                    &&& m is Some
                    &&& m->Some_0 == (SpansB {
                        server_lo: p.0 as int,
                        server_hi: p.1 as int,
                        port_lo: p.2 as int,
                        port_hi: p.3 as int,
                        proto_lo: p.4 as int,
                        proto_hi: p.5 as int,
                        time_lo: p.6 as int,
                        time_hi: p.7 as int,
                    })
                    &&& p.0 <= p.1 <= v@.len() && p.2 <= p.3 <= v@.len() && p.4 <= p.5 <= v@.len()
                        && p.6 <= p.7 <= v@.len()
                },
                None => m is None,
            }
        }),
{
    let mut i: usize = 0;
    loop
        invariant
            i <= v@.len(),
            first_b_from(v@, 0) == first_b_from(v@, i as int),
        decreases v@.len() - i,
    {
        let r = try_b_at(v, i);
        if r.is_some() {
            return r;
        }
        if i == v.len() {
            return None;
        }
        i = i + 1;
    }
}

} // verus!

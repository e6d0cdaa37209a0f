//! Character classes, scanning helpers and line splitting for the
//! line-oriented `kdig` output patterns.

use vstd::prelude::*;

verus! {

/// The whitespace class recognised by the patterns: space, tab, line feed,
/// vertical tab, form feed and carriage return.
pub open spec fn is_ws_char(c: char) -> bool {
    c == ' ' || c == '\t' || c == '\n' || c == '\u{b}' || c == '\u{c}' || c == '\r'
}

/// The ten decimal digits, by code point: `'0'` through `'9'`.
pub open spec fn is_digit_char(c: char) -> bool {
    48 <= c as u32 && c as u32 <= 57
}

/// A character that may appear in a decimal time literal: a digit or a dot.
pub open spec fn is_time_char(c: char) -> bool {
    is_digit_char(c) || c == '.'
}

/// Numeric value of a single decimal digit; any other character counts 0.
pub open spec fn digit_val(c: char) -> nat {
    if is_digit_char(c) {
        (c as u32 - 48) as nat
    } else {
        0
    }
}

pub fn ws_char(c: char) -> (r: bool)
    ensures
        r == is_ws_char(c),
{
    c == ' ' || c == '\t' || c == '\n' || c == '\u{b}' || c == '\u{c}' || c == '\r'
}

pub fn digit_char(c: char) -> (r: bool)
    ensures
        r == is_digit_char(c),
{
    let u = c as u32;
    48 <= u && u <= 57
}

pub fn time_char(c: char) -> (r: bool)
    ensures
        r == is_time_char(c),
{
    digit_char(c) || c == '.'
}

/// End of the maximal run of whitespace characters starting at `p`.
pub open spec fn ws_end(ln: Seq<char>, p: int) -> int
    decreases ln.len() - p,
{
    if 0 <= p < ln.len() && is_ws_char(ln[p]) {
        ws_end(ln, p + 1)
    } else {
        p
    }
}

/// End of the maximal run of decimal digits starting at `p`.
pub open spec fn digits_end(ln: Seq<char>, p: int) -> int
    decreases ln.len() - p,
{
    if 0 <= p < ln.len() && is_digit_char(ln[p]) {
        digits_end(ln, p + 1)
    } else {
        p
    }
}

/// End of the maximal run of digit-or-dot characters starting at `p`.
pub open spec fn time_chars_end(ln: Seq<char>, p: int) -> int
    decreases ln.len() - p,
{
    if 0 <= p < ln.len() && is_time_char(ln[p]) {
        time_chars_end(ln, p + 1)
    } else {
        p
    }
}

/// Index of the first occurrence of `c` at or after `p`, or the length of
/// the sequence when there is none.
pub open spec fn seek_char(ln: Seq<char>, p: int, c: char) -> int
    decreases ln.len() - p,
{
    if 0 <= p < ln.len() {
        if ln[p] == c {
            p
        } else {
            seek_char(ln, p + 1, c)
        }
    } else {
        ln.len() as int
    }
}

pub proof fn lemma_ws_end(ln: Seq<char>, p: int)
    requires
        0 <= p <= ln.len(),
    ensures
        p <= ws_end(ln, p) <= ln.len(),
        forall|q: int| p <= q < ws_end(ln, p) ==> is_ws_char(#[trigger] ln[q]),
        ws_end(ln, p) < ln.len() ==> !is_ws_char(ln[ws_end(ln, p)]),
    decreases ln.len() - p,
{
    if p < ln.len() && is_ws_char(ln[p]) {
        lemma_ws_end(ln, p + 1);
    }
}

pub proof fn lemma_digits_end(ln: Seq<char>, p: int)
    requires
        0 <= p <= ln.len(),
    ensures
        p <= digits_end(ln, p) <= ln.len(),
        forall|q: int| p <= q < digits_end(ln, p) ==> is_digit_char(#[trigger] ln[q]),
        digits_end(ln, p) < ln.len() ==> !is_digit_char(ln[digits_end(ln, p)]),
    decreases ln.len() - p,
{
    if p < ln.len() && is_digit_char(ln[p]) {
        lemma_digits_end(ln, p + 1);
    }
}

pub proof fn lemma_time_chars_end(ln: Seq<char>, p: int)
    requires
        0 <= p <= ln.len(),
    ensures
        p <= time_chars_end(ln, p) <= ln.len(),
        forall|q: int| p <= q < time_chars_end(ln, p) ==> is_time_char(#[trigger] ln[q]),
        time_chars_end(ln, p) < ln.len() ==> !is_time_char(ln[time_chars_end(ln, p)]),
    decreases ln.len() - p,
{
    if p < ln.len() && is_time_char(ln[p]) {
        lemma_time_chars_end(ln, p + 1);
    }
}

pub proof fn lemma_seek_char(ln: Seq<char>, p: int, c: char)
    requires
        0 <= p <= ln.len(),
    ensures
        p <= seek_char(ln, p, c) <= ln.len(),
        forall|q: int| p <= q < seek_char(ln, p, c) ==> #[trigger] ln[q] != c,
        seek_char(ln, p, c) < ln.len() ==> ln[seek_char(ln, p, c)] == c,
    decreases ln.len() - p,
{
    if p < ln.len() && ln[p] != c {
        lemma_seek_char(ln, p + 1, c);
    }
}

pub fn find_ws_end(v: &Vec<char>, from: usize) -> (r: usize)
    requires
        from <= v@.len(),
    ensures
        r == ws_end(v@, from as int),
        from <= r <= v@.len(),
{
    let mut i: usize = from;
    loop
        invariant
            from <= i <= v@.len(),
            ws_end(v@, from as int) == ws_end(v@, i as int),
        decreases v@.len() - i,
    {
        if i < v.len() && ws_char(v[i]) {
            i = i + 1;
        } else {
            return i;
        }
    }
}

pub fn find_digits_end(v: &Vec<char>, from: usize) -> (r: usize)
    requires
        from <= v@.len(),
    ensures
        r == digits_end(v@, from as int),
        from <= r <= v@.len(),
{
    let mut i: usize = from;
    loop
        invariant
            from <= i <= v@.len(),
            digits_end(v@, from as int) == digits_end(v@, i as int),
        decreases v@.len() - i,
    {
        if i < v.len() && digit_char(v[i]) {
            i = i + 1;
        } else {
            return i;
        }
    }
}

pub fn find_time_chars_end(v: &Vec<char>, from: usize) -> (r: usize)
    requires
        from <= v@.len(),
    ensures
        r == time_chars_end(v@, from as int),
        from <= r <= v@.len(),
{
    let mut i: usize = from;
    loop
        invariant
            from <= i <= v@.len(),
            time_chars_end(v@, from as int) == time_chars_end(v@, i as int),
        decreases v@.len() - i,
    {
        if i < v.len() && time_char(v[i]) {
            i = i + 1;
        } else {
            return i;
        }
    }
}

pub fn find_char(v: &Vec<char>, from: usize, c: char) -> (r: usize)
    requires
        from <= v@.len(),
    ensures
        r == seek_char(v@, from as int, c),
        from <= r <= v@.len(),
{
    let mut i: usize = from;
    loop
        invariant
            from <= i <= v@.len(),
            seek_char(v@, from as int, c) == seek_char(v@, i as int, c),
        decreases v@.len() - i,
    {
        if i < v.len() {
            if v[i] == c {
                return i;
            }
            i = i + 1;
        } else {
            return i;
        }
    }
}

/// `seek_char` is pinned down by the usual first-occurrence description.
pub proof fn lemma_seek_char_is(ln: Seq<char>, p: int, c: char, r: int)
    requires
        0 <= p <= r <= ln.len(),
        forall|q: int| p <= q < r ==> #[trigger] ln[q] != c,
        r < ln.len() ==> ln[r] == c,
    ensures
        seek_char(ln, p, c) == r,
    decreases r - p,
{
    if p < r {
        lemma_seek_char_is(ln, p + 1, c, r);
    }
}

/// First occurrence of `c` in `v` within `[from, to)`, or `to` when none.
pub fn find_char_before(v: &Vec<char>, from: usize, to: usize, c: char) -> (r: usize)
    requires
        from <= to <= v@.len(),
    ensures
        from <= r <= to,
        r < to ==> v@[r as int] == c,
        forall|q: int| from <= q < r ==> #[trigger] v@[q] != c,
{
    let mut i: usize = from;
    loop
        invariant
            from <= i <= to <= v@.len(),
            forall|q: int| from <= q < i ==> #[trigger] v@[q] != c,
        decreases to - i,
    {
        if i < to {
            if v[i] == c {
                return i;
            }
            i = i + 1;
        } else {
            return i;
        }
    }
}

/// `lit` occurs in `ln` starting exactly at position `p`.
pub open spec fn has_lit(ln: Seq<char>, p: int, lit: Seq<char>) -> bool {
    &&& 0 <= p
    &&& p + lit.len() <= ln.len()
    &&& forall|k: int| 0 <= k < lit.len() ==> ln[p + k] == #[trigger] lit[k]
}

pub fn lit_at(v: &Vec<char>, from: usize, lit: &str) -> (r: bool)
    requires
        from <= v@.len(),
    ensures
        r == has_lit(v@, from as int, lit@),
{
    let n = lit.unicode_len();
    if n > v.len() - from {
        return false;
    }
    for k in 0..n
        invariant
            from + n <= v@.len(),
            v@.len() <= usize::MAX,
            n == lit@.len(),
            forall|j: int| 0 <= j < k ==> v@[from + j] == #[trigger] lit@[j],
    {
        if lit.get_char(k) != v[from + k] {
            return false;
        }
    }
    true
}

/// The characters of `s`, one per element.
pub fn to_chars(s: &str) -> (v: Vec<char>)
    ensures
        v@ == s@,
{
    let n = s.unicode_len();
    let mut v: Vec<char> = Vec::new();
    for i in 0..n
        invariant
            n == s@.len(),
            v@ == s@.subrange(0, i as int),
    {
        v.push(s.get_char(i));
        proof {
            assert(v@ =~= s@.subrange(0, i + 1));
        }
    }
    proof {
        assert(v@ =~= s@);
    }
    v
}

/// A line piece with a final carriage return removed.
pub open spec fn strip_cr(l: Seq<char>) -> Seq<char> {
    if l.len() > 0 && l[l.len() - 1] == '\r' {
        l.drop_last()
    } else {
        l
    }
}

/// The lines of a text: pieces split at each line feed, where a carriage
/// return just before a line feed belongs to the line ending and is dropped.
/// A final piece after the last line feed is kept as it stands when it is
/// non-empty; text ending in a line feed yields no extra empty line.
pub open spec fn spec_lines(t: Seq<char>) -> Seq<Seq<char>>
    decreases t.len(),
{
    if t.len() == 0 {
        Seq::empty()
    } else {
        let i = seek_char(t, 0, '\n');
        if 0 <= i < t.len() {
            seq![strip_cr(t.subrange(0, i))] + spec_lines(t.subrange(i + 1, t.len() as int))
        } else {
            seq![t]
        }
    }
}

/// Splits a text into its lines, as `spec_lines` describes.
pub fn split_lines(s: &str) -> (out: Vec<String>)
    ensures
        out@.map_values(|l: String| l@) == spec_lines(s@),
{
    let v = to_chars(s);
    let n = v.len();
    let mut out: Vec<String> = Vec::new();
    let mut pos: usize = 0;
    proof {
        assert(s@.subrange(0, n as int) =~= s@);
        assert(out@.map_values(|l: String| l@) + spec_lines(s@) =~= spec_lines(s@));
    }
    while pos < n
        invariant
            pos <= n == s@.len(),
            v@ == s@,
            out@.map_values(|l: String| l@) + spec_lines(s@.subrange(pos as int, n as int))
                =~= spec_lines(s@),
        decreases n - pos,
    {
        let ghost rem = s@.subrange(pos as int, n as int);
        let i = find_char_before(&v, pos, n, '\n');
        proof {
            assert forall|q: int| 0 <= q < i - pos implies #[trigger] rem[q] != '\n' by {
                assert(rem[q] == v@[pos + q]);
            }
            assert(i < n ==> rem[i - pos] == '\n');
            lemma_seek_char_is(rem, 0, '\n', i - pos);
        }
        if i < n {
            let e: usize = if i > pos && v[i - 1] == '\r' {
                i - 1
            } else {
                i
            };
            let piece = s.substring_char(pos, e);
            out.push(String::from_str(piece));
            proof {
                assert(rem.subrange(0, i - pos) =~= s@.subrange(pos as int, i as int));
                assert(strip_cr(rem.subrange(0, i - pos)) =~= s@.subrange(pos as int, e as int));
                assert(rem.subrange(i - pos + 1, rem.len() as int)
                    =~= s@.subrange(i + 1, n as int));
                assert(out@.map_values(|l: String| l@)
                    =~= out@.map_values(|l: String| l@).drop_last().push(piece@));
            }
            pos = i + 1;
        } else {
            let piece = s.substring_char(pos, n);
            out.push(String::from_str(piece));
            proof {
                assert(rem =~= s@.subrange(pos as int, n as int));
                assert(out@.map_values(|l: String| l@)
                    =~= out@.map_values(|l: String| l@).drop_last().push(piece@));
            }
            pos = n;
        }
    }
    proof {
        assert(spec_lines(s@.subrange(pos as int, n as int)).len() == 0);
        assert(out@.map_values(|l: String| l@) =~= spec_lines(s@));
    }
    out
}

/// Leading and trailing whitespace removed.
pub open spec fn spec_trim(s: Seq<char>) -> Seq<char> {
    let a = ws_end(s, 0);
    if a == s.len() {
        Seq::empty()
    } else {
        let b = trim_back(s, s.len() as int);
        s.subrange(a, b)
    }
}

/// Position just after the last non-whitespace character strictly before `p`.
pub open spec fn trim_back(s: Seq<char>, p: int) -> int
    decreases p,
{
    if 0 < p <= s.len() && is_ws_char(s[p - 1]) {
        trim_back(s, p - 1)
    } else {
        p
    }
}

pub proof fn lemma_trim_back(s: Seq<char>, p: int)
    requires
        0 <= p <= s.len(),
    ensures
        0 <= trim_back(s, p) <= p,
        forall|q: int| trim_back(s, p) <= q < p ==> is_ws_char(#[trigger] s[q]),
        trim_back(s, p) > 0 ==> !is_ws_char(s[trim_back(s, p) - 1]),
    decreases p,
{
    if 0 < p && is_ws_char(s[p - 1]) {
        lemma_trim_back(s, p - 1);
    }
}

/// The characters of `v` in `[from, to)`, with surrounding whitespace
/// removed, returned as an owned string cut from `s`.
pub fn trimmed_of(s: &str, v: &Vec<char>, from: usize, to: usize) -> (r: String)
    requires
        v@ == s@,
        from <= to <= v@.len(),
    ensures
        r@ == spec_trim(s@.subrange(from as int, to as int)),
{
    let ghost piece = s@.subrange(from as int, to as int);
    let mut a: usize = from;
    while a < to && ws_char(v[a])
        invariant
            from <= a <= to <= v@.len(),
            v@ == s@,
            piece == s@.subrange(from as int, to as int),
            ws_end(piece, 0) == ws_end(piece, a - from),
        decreases to - a,
    {
        proof {
            assert(piece[a - from] == v@[a as int]);
        }
        a = a + 1;
    }
    proof {
        lemma_ws_end(piece, 0);
        if a < to {
            assert(piece[a - from] == v@[a as int]);
        }
        assert(ws_end(piece, 0) == a - from);
    }
    if a == to {
        proof {
            assert(spec_trim(piece) =~= Seq::<char>::empty());
        }
        return String::new();
    }
    proof {
        assert(piece[a - from] == v@[a as int]);
    }
    let mut b: usize = to;
    while b > a && ws_char(v[b - 1])
        invariant
            from <= a < b <= to <= v@.len(),
            v@ == s@,
            piece == s@.subrange(from as int, to as int),
            !is_ws_char(piece[a - from]),
            trim_back(piece, to - from) == trim_back(piece, b - from),
        decreases b,
    {
        proof {
            assert(piece[b - 1 - from] == v@[b - 1]);
            assert(b - 1 != a);
        }
        b = b - 1;
    }
    proof {
        if b > a {
            assert(piece[b - 1 - from] == v@[b - 1]);
        }
        assert(trim_back(piece, to - from) == b - from);
        assert(piece.subrange(a - from, b - from) =~= s@.subrange(a as int, b as int));
    }
    let piece_str = s.substring_char(a, b);
    String::from_str(piece_str)
}

} // verus!

//! Numeric parsing and rendering: digit strings, decimal time literals
//! held as whole microseconds, and decimal rendering of counters.

use vstd::prelude::*;
use crate::text::{
    is_digit_char, is_time_char, digit_val, seek_char, digit_char, lemma_seek_char_is,
    find_char_before,
};

verus! {

/// Value of a digit string, most significant digit first.
pub open spec fn digits_val(s: Seq<char>) -> nat
    decreases s.len(),
{
    if s.len() == 0 {
        0
    } else {
        digits_val(s.drop_last()) * 10 + digit_val(s.last())
    }
}

pub open spec fn pow10(n: nat) -> nat
    decreases n,
{
    if n == 0 {
        1
    } else {
        10 * pow10((n - 1) as nat)
    }
}

/// A digit string never exceeds all-nines of its length.
pub proof fn lemma_digits_val_bound(s: Seq<char>)
    ensures
        digits_val(s) < pow10(s.len()),
    decreases s.len(),
{
    if s.len() > 0 {
        lemma_digits_val_bound(s.drop_last());
    }
}

/// Dropping trailing digits never increases the value.
pub proof fn lemma_digits_val_take(s: Seq<char>, k: int)
    requires
        0 <= k <= s.len(),
    ensures
        digits_val(s) >= digits_val(s.take(k)),
    decreases s.len(),
{
    if k < s.len() {
        assert(s.drop_last().take(k) =~= s.take(k));
        lemma_digits_val_take(s.drop_last(), k);
    } else {
        assert(s.take(k) =~= s);
    }
}

/// Parses the digits of `v` in `[from, to)` as an integer, capped at `max`:
/// a value over the cap counts as a failed parse.
pub fn parse_digits(v: &Vec<char>, from: usize, to: usize, max: u64) -> (r: Option<u64>)
    requires
        from <= to <= v@.len(),
        forall|q: int| from <= q < to ==> is_digit_char(#[trigger] v@[q]),
    ensures
        ({
            let dv = digits_val(v@.subrange(from as int, to as int));
            match r {
                Some(x) => x as nat == dv && dv <= max,
                None => dv > max,
            }
        }),
{
    let ghost s = v@.subrange(from as int, to as int);
    let mut acc: u64 = 0;
    let mut i: usize = from;
    while i < to
        invariant
            from <= i <= to <= v@.len(),
            forall|q: int| from <= q < to ==> is_digit_char(#[trigger] v@[q]),
            s == v@.subrange(from as int, to as int),
            acc as nat == digits_val(v@.subrange(from as int, i as int)),
            acc <= max,
        decreases to - i,
    {
        let c = v[i];
        let d: u64 = (c as u32 as u64) - 48;
        let wide: u128 = acc as u128 * 10 + d as u128;
        proof {
            assert(v@.subrange(from as int, i + 1).drop_last() =~= v@.subrange(
                from as int,
                i as int,
            ));
            assert(v@.subrange(from as int, i + 1).last() == v@[i as int]);
            assert(wide as nat == digits_val(v@.subrange(from as int, i + 1)));
        }
        if wide > max as u128 {
            proof {
                lemma_digits_val_take(s, i + 1 - from);
                assert(s.take(i + 1 - from) =~= v@.subrange(from as int, i + 1));
            }
            return None;
        }
        acc = wide as u64;
        i = i + 1;
    }
    proof {
        assert(v@.subrange(from as int, to as int) =~= s);
    }
    Some(acc)
}

/// Microseconds contributed by the fractional digits of a millisecond
/// literal; digits beyond the third do not change an exactly representable
/// value and are checked separately.
pub open spec fn frac_micros(fp: Seq<char>) -> nat {
    if fp.len() >= 3 {
        digits_val(fp.subrange(0, 3))
    } else if fp.len() == 2 {
        digits_val(fp) * 10
    } else if fp.len() == 1 {
        digits_val(fp) * 100
    } else {
        0
    }
}

/// The value of a decimal millisecond literal, in whole microseconds.
/// `None` when the literal is malformed (no digits, or a second dot) or not
/// a whole number of microseconds.
pub open spec fn time_value_micros(s: Seq<char>) -> Option<int> {
    if s.len() == 0 {
        None
    } else {
        let d = seek_char(s, 0, '.');
        if d >= s.len() {
            Some((digits_val(s) * 1000) as int)
        } else {
            let ip = s.subrange(0, d);
            let fp = s.subrange(d + 1, s.len() as int);
            if seek_char(fp, 0, '.') < fp.len() {
                None
            } else if ip.len() == 0 && fp.len() == 0 {
                None
            } else if exists|i: int| 3 <= i < fp.len() && #[trigger] fp[i] != '0' {
                None
            } else {
                Some((digits_val(ip) * 1000 + frac_micros(fp)) as int)
            }
        }
    }
}

/// Parses the decimal millisecond literal in `v` at `[from, to)` into whole
/// microseconds. A value that is not a whole number of microseconds, or does
/// not fit, counts as a failed parse.
#[verifier::loop_isolation(false)]
pub fn parse_time_micros(v: &Vec<char>, from: usize, to: usize) -> (r: Option<u64>)
    requires
        from <= to <= v@.len(),
        forall|q: int| from <= q < to ==> is_time_char(#[trigger] v@[q]),
    ensures
        ({
            let tv = time_value_micros(v@.subrange(from as int, to as int));
            match r {
                Some(x) => tv == Some(x as int),
                None => tv is None || tv->Some_0 > u64::MAX,
            }
        }),
{
    let ghost s = v@.subrange(from as int, to as int);
    if from == to {
        return None;
    }
    let d = find_char_before(v, from, to, '.');
    proof {
        assert forall|q: int| 0 <= q < d - from implies #[trigger] s[q] != '.' by {
            assert(s[q] == v@[from + q]);
        }
        if d < to {
            assert(s[d - from] == v@[d as int]);
        }
        lemma_seek_char_is(s, 0, '.', d - from);
        assert forall|q: int| from <= q < to && #[trigger] v@[q] != '.' implies is_digit_char(
            v@[q],
        ) by {}
    }
    if d == to {
        // no dot: whole milliseconds
        proof {
            assert forall|q: int| from <= q < to implies is_digit_char(#[trigger] v@[q]) by {
                assert(s[q - from] == v@[q]);
            }
        }
        match parse_digits(v, from, to, u64::MAX) {
            None => {
                return None;
            },
            Some(x) => {
                let wide: u128 = x as u128 * 1000;
                if wide > u64::MAX as u128 {
                    return None;
                }
                return Some(wide as u64);
            },
        }
    }
    let ghost ip = s.subrange(0, d - from);
    let ghost fp = s.subrange(d - from + 1, s.len() as int);
    // a second dot makes the literal malformed
    let d2 = find_char_before(v, d + 1, to, '.');
    proof {
        assert forall|q: int| 0 <= q < d2 - d - 1 implies #[trigger] fp[q] != '.' by {
            assert(fp[q] == v@[d + 1 + q]);
        }
        if d2 < to {
            assert(fp[d2 - d - 1] == v@[d2 as int]);
        }
        lemma_seek_char_is(fp, 0, '.', d2 - d - 1);
    }
    if d2 < to {
        return None;
    }
    if from == d && d + 1 == to {
        // a bare dot has no digits
        return None;
    }
    proof {
        assert forall|q: int| d + 1 <= q < to implies is_digit_char(#[trigger] v@[q]) by {
            assert(fp[q - d - 1] == v@[q]);
        }
        assert forall|q: int| from <= q < d implies is_digit_char(#[trigger] v@[q]) by {
            assert(s[q - from] == v@[q]);
        }
    }
    // fractional part: at most three significant digits of a millisecond
    let fl: usize = to - (d + 1);
    let mut frac: u64 = 0;
    if fl >= 3 {
        let mut j: usize = d + 4;
        while j < to
            invariant
                d + 4 <= j <= to <= v@.len(),
                fl == to - d - 1,
                fl >= 3,
                fp == s.subrange(d - from + 1, s.len() as int),
                s == v@.subrange(from as int, to as int),
                from <= d,
                d + 1 <= to,
                forall|q: int| d + 1 <= q < to ==> is_digit_char(#[trigger] v@[q]),
                forall|q: int| 3 <= q < j - d - 1 ==> #[trigger] fp[q] == '0',
            decreases to - j,
        {
            proof {
                assert(fp[j - d - 1] == v@[j as int]);
            }
            if v[j] != '0' {
                return None;
            }
            j = j + 1;
        }
        proof {
            assert(fp.subrange(0, 3) =~= v@.subrange(d + 1, d + 4));
            lemma_digits_val_bound(fp.subrange(0, 3));
            assert(pow10(0) == 1);
            assert(pow10(1) == 10);
            assert(pow10(2) == 100);
            assert(pow10(3) == 1000);
        }
        match parse_digits(v, d + 1, d + 4, 999) {
            None => {
                proof {
                    assert(false);
                }
                return None;
            },
            Some(x) => {
                frac = x;
            },
        }
    } else {
        proof {
            assert(fp =~= v@.subrange(d + 1, to as int));
            lemma_digits_val_bound(fp);
            assert(pow10(0) == 1);
            assert(pow10(1) == 10);
            assert(pow10(2) == 100);
        }
        match parse_digits(v, d + 1, to, 99) {
            None => {
                proof {
                    assert(false);
                }
                return None;
            },
            Some(x) => {
                if fl == 2 {
                    frac = x * 10;
                } else if fl == 1 {
                    frac = x * 100;
                } else {
                    frac = 0;
                }
            },
        }
    }
    proof {
        assert(frac as nat == frac_micros(fp));
        assert(frac <= 999);
    }
    // integer part
    proof {
        assert(ip =~= v@.subrange(from as int, d as int));
    }
    let iv: u64;
    if from == d {
        iv = 0;
    } else {
        match parse_digits(v, from, d, u64::MAX) {
            None => {
                proof {
                    assert(digits_val(ip) * 1000 >= digits_val(ip));
                }
                return None;
            },
            Some(x) => {
                iv = x;
            },
        }
    }
    let wide: u128 = iv as u128 * 1000 + frac as u128;
    if wide > u64::MAX as u128 {
        return None;
    }
    Some(wide as u64)
}

/// The decimal digits of `n`, most significant first, no leading zeros
/// except for zero itself.
pub open spec fn dec_chars(n: nat) -> Seq<char>
    decreases n,
{
    if n < 10 {
        seq![char_of_digit(n)]
    } else {
        dec_chars(n / 10).push(char_of_digit(n % 10))
    }
}

/// The character for a single decimal digit.
pub open spec fn char_of_digit(d: nat) -> char {
    (48 + d as u8) as char
}

/// Renders `x` in decimal.
pub fn u64_to_string(x: u64) -> (r: String)
    ensures
        r@ == dec_chars(x as nat),
    decreases x,
{
    let digits = "0123456789";
    proof {
        reveal_strlit("0123456789");
    }
    let d: usize = (x % 10) as usize;
    let ds: &str = digits.substring_char(d, d + 1);
    proof {
        assert(ds@ =~= seq![char_of_digit((x % 10) as nat)]);
    }
    if x < 10 {
        String::from_str(ds)
    } else {
        let r = u64_to_string(x / 10);
        r.concat(ds)
    }
}

} // verus!

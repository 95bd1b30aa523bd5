//! Rendering of fixed-point values: a signed integer in tenths of a unit is
//! printed as its decimal digits with exactly one fractional digit, a period
//! as the separator and no leading zeros.

use crate::parse::{
    all_digits, digits_to_int, field_body, field_digits, field_value, is_ascii_digit,
    lemma_digits_bounds, lemma_digits_push, valid_field,
};
use crate::stats::{DataPoint, Stats};
use vstd::arithmetic::div_mod::{lemma_div_nonincreasing, lemma_fundamental_div_mod_converse};
use vstd::prelude::*;

verus! {

/// The sequence read back to front.
pub open spec fn reversed(s: Seq<u8>) -> Seq<u8>
    decreases s.len(),
{
    if s.len() == 0 {
        Seq::empty()
    } else {
        reversed(s.skip(1)).push(s[0])
    }
}

/// The decimal digits of a non-negative number, most significant first.
pub open spec fn dec_digits(n: int) -> Seq<u8>
    recommends
        n >= 0,
    decreases n,
{
    if n < 10 {
        seq![(48 + n) as u8]
    } else {
        dec_digits(n / 10).push((48 + n % 10) as u8)
    }
}

/// A non-negative value in tenths, rendered as whole digits, a point, and
/// one fractional digit.
pub open spec fn spec_format_nonneg(n: int) -> Seq<u8>
    recommends
        n >= 0,
{
    dec_digits(n / 10) + seq![46u8, (48 + n % 10) as u8]
}

/// A value in tenths, rendered with an optional leading minus sign.
pub open spec fn spec_format_tenths(t: int) -> Seq<u8> {
    if t < 0 {
        seq![45u8] + spec_format_nonneg(-t)
    } else {
        spec_format_nonneg(t)
    }
}

proof fn lemma_reversed_push(s: Seq<u8>, x: u8)
    ensures
        reversed(s.push(x)) == seq![x] + reversed(s),
    decreases s.len(),
{
    if s.len() == 0 {
        assert(s.push(x).skip(1) =~= Seq::<u8>::empty());
        assert(reversed(Seq::<u8>::empty()) == Seq::<u8>::empty());
        assert(s.push(x)[0] == x);
        assert(reversed(s.push(x)) == reversed(Seq::<u8>::empty()).push(x));
        assert(reversed(s.push(x)) =~= seq![x] + reversed(s));
    } else {
        assert(s.push(x).skip(1) =~= s.skip(1).push(x));
        lemma_reversed_push(s.skip(1), x);
        assert(reversed(s.push(x)) == reversed(s.skip(1).push(x)).push(s[0]));
        assert((seq![x] + reversed(s.skip(1))).push(s[0]) =~= seq![x] + reversed(s.skip(1)).push(
            s[0],
        ));
    }
}

/// Render a value in tenths of a unit as decimal text with one fractional
/// digit: the digits of `t / 10`, a period, then the digit `|t| % 10`.
pub fn format_tenths(t: i64) -> (r: Vec<u8>)
    requires
        t > i64::MIN,
    ensures
        r@ == spec_format_tenths(t as int),
{
    let mut out: Vec<u8> = Vec::new();
    let mut n: i64 = t;
    if t < 0 {
        out.push(45);
        n = -t;
    }
    let ghost base = out@;
    let whole: i64 = n / 10;
    let frac: u8 = (n % 10) as u8;
    if whole == 0 {
        out.push(48);
        proof {
            assert(out@ =~= base + dec_digits(whole as int));
        }
    } else {
        let mut temp: Vec<u8> = Vec::new();
        let mut w: i64 = whole;
        while w > 0
            invariant
                0 <= w <= whole,
                whole > 0,
                if w > 0 {
                    dec_digits(whole as int) == dec_digits(w as int) + reversed(temp@)
                } else {
                    dec_digits(whole as int) == reversed(temp@)
                },
            decreases w,
        {
            let d: u8 = 48 + (w % 10) as u8;
            proof {
                lemma_reversed_push(temp@, d);
                if w >= 10 {
                    assert(dec_digits(w as int) == dec_digits(w as int / 10).push(
                        (48 + w as int % 10) as u8,
                    ));
                    assert(dec_digits(w as int / 10).push(d) + reversed(temp@) =~= dec_digits(
                        w as int / 10,
                    ) + (seq![d] + reversed(temp@)));
                } else {
                    assert(dec_digits(w as int) == seq![d]);
                    assert(seq![d] + reversed(temp@) =~= dec_digits(w as int) + reversed(temp@));
                }
            }
            temp.push(d);
            w = w / 10;
        }
        let mut i: usize = temp.len();
        while i > 0
            invariant
                i <= temp@.len(),
                dec_digits(whole as int) == reversed(temp@),
                out@ == base + reversed(temp@.skip(i as int)),
            decreases i,
        {
            i = i - 1;
            out.push(temp[i]);
            proof {
                assert(temp@.skip(i as int).skip(1) =~= temp@.skip(i as int + 1));
                assert(reversed(temp@.skip(i as int)) == reversed(temp@.skip(i as int + 1)).push(
                    temp@[i as int],
                ));
                assert(out@ =~= (base + reversed(temp@.skip(i as int + 1))).push(temp@[i as int]));
            }
        }
        proof {
            assert(temp@.skip(0) =~= temp@);
        }
    }
    out.push(46);
    out.push(48 + frac);
    proof {
        if t < 0 {
            assert(base =~= seq![45u8]);
            assert(out@ =~= seq![45u8] + spec_format_nonneg(n as int));
        } else {
            assert(base =~= Seq::<u8>::empty());
            assert(out@ =~= spec_format_nonneg(n as int));
        }
    }
    out
}

/// The mean of a sample set in tenths, rounded toward zero.
pub open spec fn spec_mean_tenths(s: Stats) -> int
    recommends
        s.count >= 1,
{
    if s.sum >= 0 {
        s.sum / s.count
    } else {
        -((-s.sum) / s.count)
    }
}

/// One output line: `key=min/mean/max, `, each value with one fractional
/// digit.
pub open spec fn spec_format_line(k: Seq<u8>, s: Stats) -> Seq<u8> {
    k + seq![61u8] + spec_format_tenths(s.min) + seq![47u8] + spec_format_tenths(
        spec_mean_tenths(s),
    ) + seq![47u8] + spec_format_tenths(s.max) + seq![44u8, 32u8]
}

/// The mean of the samples in tenths, rounded toward zero.
pub fn mean_tenths(d: &DataPoint) -> (r: i64)
    requires
        d@.count >= 1,
        d@.sum > i64::MIN,
    ensures
        r as int == spec_mean_tenths(d@),
{
    let sum = d.sum();
    let count = d.count() as u64;
    if sum >= 0 {
        proof {
            lemma_div_nonincreasing(d@.sum, d@.count);
        }
        ((sum as u64) / count) as i64
    } else {
        proof {
            lemma_div_nonincreasing(-d@.sum, d@.count);
            assert((-d@.sum) / d@.count >= 0) by {
                vstd::arithmetic::div_mod::lemma_div_pos_is_pos(-d@.sum, d@.count);
            }
        }
        -((((-sum) as u64) / count) as i64)
    }
}

/// Render one key's output line: `key=min/mean/max, `.
pub fn format_line(key: &[u8], d: &DataPoint) -> (r: Vec<u8>)
    requires
        d@.count >= 1,
        d@.sum > i64::MIN,
    ensures
        r@ == spec_format_line(key@, d@),
{
    let mut out: Vec<u8> = Vec::new();
    out.extend_from_slice(key);
    out.push(61);
    let mut part_min = format_tenths(d.min() as i64);
    out.append(&mut part_min);
    out.push(47);
    proof {
        lemma_div_nonincreasing(if d@.sum >= 0 {
            d@.sum
        } else {
            -d@.sum
        }, d@.count);
        assert((if d@.sum >= 0 {
            d@.sum
        } else {
            -d@.sum
        }) / d@.count >= 0) by {
            vstd::arithmetic::div_mod::lemma_div_pos_is_pos(
                if d@.sum >= 0 {
                    d@.sum
                } else {
                    -d@.sum
                },
                d@.count,
            );
        }
    }
    let mean = mean_tenths(d);
    let mut part_mean = format_tenths(mean);
    out.append(&mut part_mean);
    out.push(47);
    let mut part_max = format_tenths(d.max() as i64);
    out.append(&mut part_max);
    out.push(44);
    out.push(32);
    proof {
        assert(out@ =~= spec_format_line(key@, d@));
    }
    out
}

/// The whole-digit part of a field with its leading zeros removed; at least
/// one digit always remains.
pub open spec fn strip_zeros(s: Seq<u8>) -> Seq<u8>
    decreases s.len(),
{
    if s.len() > 1 && s[0] == 48u8 {
        strip_zeros(s.skip(1))
    } else {
        s
    }
}

/// A field with its sign and zero padding normalized: no leading zeros in
/// the whole part, and no minus sign on a zero value.
pub open spec fn normalize_field(s: Seq<u8>) -> Seq<u8> {
    let body = field_body(s);
    let sign: Seq<u8> = if s.len() > 0 && s[0] == 45u8 && field_value(s) != 0 {
        seq![45u8]
    } else {
        Seq::empty()
    };
    sign + strip_zeros(body.take(body.len() - 2)) + seq![46u8, body.last()]
}

/// Dropping a leading zero does not change the value of a digit sequence.
proof fn lemma_digits_skip_zero(s: Seq<u8>)
    requires
        all_digits(s),
        s.len() > 1,
        s[0] == 48u8,
    ensures
        digits_to_int(s.skip(1)) == digits_to_int(s),
    decreases s.len(),
{
    let e = s.drop_last();
    if e.len() == 1 {
        assert(e =~= seq![48u8]);
        assert(e.drop_last() =~= Seq::<u8>::empty());
        assert(digits_to_int(Seq::<u8>::empty()) == 0);
        assert(digits_to_int(e) == 0);
        assert(s.skip(1) =~= seq![s.last()]);
        assert(s.skip(1).drop_last() =~= Seq::<u8>::empty());
        assert(digits_to_int(s.skip(1)) == s.last() - 48);
        assert(digits_to_int(s) == digits_to_int(e) * 10 + (s.last() - 48));
    } else {
        assert(all_digits(e));
        lemma_digits_skip_zero(e);
        assert(s.skip(1).drop_last() =~= e.skip(1));
        assert(s.skip(1).last() == s.last());
    }
}

/// Stripping leading zeros keeps the value and yields a canonical digit
/// sequence: non-empty, all digits, and no leading zero unless it is the
/// single digit zero.
proof fn lemma_strip_zeros(s: Seq<u8>)
    requires
        all_digits(s),
        s.len() >= 1,
    ensures
        digits_to_int(strip_zeros(s)) == digits_to_int(s),
        strip_zeros(s).len() >= 1,
        all_digits(strip_zeros(s)),
        strip_zeros(s).len() > 1 ==> strip_zeros(s)[0] != 48u8,
    decreases s.len(),
{
    if s.len() > 1 && s[0] == 48u8 {
        assert(all_digits(s.skip(1)));
        lemma_digits_skip_zero(s);
        lemma_strip_zeros(s.skip(1));
    }
}

/// A digit sequence with a non-zero leading digit denotes a positive value.
proof fn lemma_digits_first_nonzero(s: Seq<u8>)
    requires
        all_digits(s),
        s.len() >= 1,
        s[0] > 48u8,
    ensures
        digits_to_int(s) >= 1,
    decreases s.len(),
{
    if s.len() == 1 {
        assert(s.drop_last() =~= Seq::<u8>::empty());
        assert(digits_to_int(Seq::<u8>::empty()) == 0);
        assert(digits_to_int(s) == s[0] - 48);
    } else {
        let e = s.drop_last();
        assert(all_digits(e));
        assert(e[0] == s[0]);
        lemma_digits_first_nonzero(e);
        assert(is_ascii_digit(s[s.len() - 1]));
        assert(digits_to_int(s) == digits_to_int(e) * 10 + (s.last() - 48));
    }
}

/// Printing inverts reading on canonical digit sequences.
proof fn lemma_dec_digits_inverse(s: Seq<u8>)
    requires
        all_digits(s),
        s.len() >= 1,
        s.len() > 1 ==> s[0] != 48u8,
    ensures
        dec_digits(digits_to_int(s)) == s,
    decreases s.len(),
{
    lemma_digits_bounds(s);
    let m = digits_to_int(s);
    if s.len() == 1 {
        assert(s.drop_last() =~= Seq::<u8>::empty());
        assert(digits_to_int(Seq::<u8>::empty()) == 0);
        assert(is_ascii_digit(s[0]));
        assert(m == s[0] - 48);
        assert(dec_digits(m) =~= s);
    } else {
        let e = s.drop_last();
        let d = s.last();
        assert(all_digits(e));
        assert(e[0] == s[0]);
        lemma_digits_first_nonzero(e);
        let me = digits_to_int(e);
        assert(m == me * 10 + (d - 48));
        lemma_fundamental_div_mod_converse(m, 10, me, d - 48);
        assert(m >= 10);
        lemma_dec_digits_inverse(e);
        assert(dec_digits(m) == dec_digits(me).push((48 + (d - 48)) as u8));
        assert(dec_digits(m) =~= s);
    }
}

/// A digit sequence that denotes zero strips down to the single digit zero.
proof fn lemma_strip_zeros_of_zero(s: Seq<u8>)
    requires
        all_digits(s),
        s.len() >= 1,
        digits_to_int(s) == 0,
    ensures
        strip_zeros(s) == seq![48u8],
    decreases s.len(),
{
    if s.len() == 1 {
        assert(s.drop_last() =~= Seq::<u8>::empty());
        assert(s =~= seq![48u8]);
    } else {
        assert(s[0] == 48u8) by {
            if s[0] > 48u8 {
                lemma_digits_first_nonzero(s);
            }
        }
        assert(all_digits(s.skip(1)));
        lemma_digits_skip_zero(s);
        lemma_strip_zeros_of_zero(s.skip(1));
    }
}

/// Law: formatting a parsed field reproduces the field, up to removing zero
/// padding and the sign of a zero value.
pub proof fn lemma_parse_format_round_trip(s: Seq<u8>)
    requires
        valid_field(s),
    ensures
        spec_format_tenths(field_value(s)) == normalize_field(s),
{
    let body = field_body(s);
    let whole = body.take(body.len() - 2);
    let d = body.last();
    assert(all_digits(whole));
    assert(whole.len() >= 1);
    let mw = digits_to_int(whole);
    lemma_digits_bounds(whole);
    lemma_digits_push(whole, d);
    assert(field_digits(s) == whole.push(d));
    let m = digits_to_int(field_digits(s));
    assert(m == mw * 10 + (d - 48));
    assert(is_ascii_digit(d));
    lemma_fundamental_div_mod_converse(m, 10, mw, d - 48);
    assert(m / 10 == mw && m % 10 == d - 48);
    lemma_strip_zeros(whole);
    lemma_dec_digits_inverse(strip_zeros(whole));
    assert(dec_digits(mw) == strip_zeros(whole));
    let neg = s.len() > 0 && s[0] == 45u8;
    if !neg {
        assert(field_value(s) == m >= 0);
        assert(spec_format_tenths(m) == dec_digits(mw) + seq![46u8, d]);
        assert(normalize_field(s) =~= strip_zeros(whole) + seq![46u8, d]);
        assert(spec_format_tenths(field_value(s)) =~= normalize_field(s));
    } else if m != 0 {
        assert(field_value(s) == -m < 0);
        assert(spec_format_tenths(-m) == seq![45u8] + (dec_digits(mw) + seq![46u8, d]));
        assert(spec_format_tenths(field_value(s)) =~= seq![45u8] + strip_zeros(whole) + seq![
            46u8,
            d,
        ]);
        assert(normalize_field(s) =~= seq![45u8] + strip_zeros(whole) + seq![46u8, d]);
    } else {
        assert(field_value(s) == 0);
        assert(mw == 0 && d == 48) by {
            assert(mw >= 0 && d - 48 >= 0);
        }
        lemma_strip_zeros_of_zero(whole);
        assert(dec_digits(0) =~= seq![48u8]);
        assert(spec_format_tenths(0) =~= seq![48u8, 46u8, 48u8]);
        assert(normalize_field(s) =~= seq![48u8] + seq![46u8, 48u8]);
        assert(normalize_field(s) =~= seq![48u8, 46u8, 48u8]);
    }
}

} // verus!

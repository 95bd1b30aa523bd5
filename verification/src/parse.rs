//! The fixed-point value format: an optional leading minus sign, one or more
//! integer digits, a decimal point, and exactly one fractional digit
//! (`-12.3`, `5.0`). Values are held as signed integers in tenths of a unit.

use vstd::prelude::*;

verus! {

/// ASCII digit.
pub open spec fn is_ascii_digit(b: u8) -> bool {
    48 <= b && b <= 57
}

pub open spec fn all_digits(s: Seq<u8>) -> bool {
    forall|i: int| 0 <= i < s.len() ==> is_ascii_digit(#[trigger] s[i])
}

/// The number denoted by a sequence of ASCII digits, most significant first.
pub open spec fn digits_to_int(s: Seq<u8>) -> int
    decreases s.len(),
{
    if s.len() == 0 {
        0
    } else {
        digits_to_int(s.drop_last()) * 10 + (s.last() - 48)
    }
}

/// 10 to the power `n`.
pub open spec fn pow10(n: nat) -> int
    decreases n,
{
    if n == 0 {
        1
    } else {
        10 * pow10((n - 1) as nat)
    }
}

/// The unsigned part of a value field: digits, a point, one fractional digit.
pub open spec fn valid_unsigned_field(s: Seq<u8>) -> bool {
    &&& s.len() >= 3
    &&& s[s.len() - 2] == 46u8
    &&& all_digits(s.take(s.len() - 2))
    &&& is_ascii_digit(s.last())
}

/// The digits and the point of a value field, without the sign.
pub open spec fn field_body(s: Seq<u8>) -> Seq<u8> {
    if s.len() > 0 && s[0] == 45u8 {
        s.skip(1)
    } else {
        s
    }
}

/// A well-formed value field: an optional minus sign, then digits, a point,
/// and exactly one fractional digit.
pub open spec fn valid_field(s: Seq<u8>) -> bool {
    valid_unsigned_field(field_body(s))
}

/// All digits of a value field in order, with the point removed.
pub open spec fn field_digits(s: Seq<u8>) -> Seq<u8> {
    let b = field_body(s);
    b.take(b.len() - 2).push(b.last())
}

/// How many digits a value field holds (sign and point excluded).
pub open spec fn field_digit_count(s: Seq<u8>) -> int {
    field_body(s).len() - 1
}

/// The value denoted by a field, in tenths of a unit.
pub open spec fn field_value(s: Seq<u8>) -> int {
    if s.len() > 0 && s[0] == 45u8 {
        -digits_to_int(field_digits(s))
    } else {
        digits_to_int(field_digits(s))
    }
}

/// A digit sequence denotes a value in `[0, 10^len)`.
pub proof fn lemma_digits_bounds(s: Seq<u8>)
    requires
        all_digits(s),
    ensures
        0 <= digits_to_int(s) < pow10(s.len() as nat),
    decreases s.len(),
{
    if s.len() > 0 {
        assert(all_digits(s.drop_last()));
        lemma_digits_bounds(s.drop_last());
    }
}

/// Appending a digit multiplies the value by ten and adds the digit.
pub proof fn lemma_digits_push(s: Seq<u8>, d: u8)
    ensures
        digits_to_int(s.push(d)) == digits_to_int(s) * 10 + (d - 48),
{
    assert(s.push(d).drop_last() =~= s);
    assert(s.push(d).last() == d);
}

/// Parse a value field into a signed integer in tenths of a unit: the
/// decimal value with the point removed. The field must be well formed and
/// short enough that the value fits the result type.
pub fn parse_ascii_digits(buffer: &[u8]) -> (r: i32)
    requires
        valid_field(buffer@),
        field_digit_count(buffer@) <= 9,
    ensures
        r as int == field_value(buffer@),
{
    let len = buffer.len();
    let neg = buffer[0] == 45;
    let first: usize = if neg { 1 } else { 0 };
    let ghost body = field_body(buffer@);
    proof {
        assert(body =~= buffer@.skip(first as int));
    }
    let mut acc: i32 = 0;
    let mut i: usize = first;
    let dot = len - 2;
    while i < dot
        invariant
            valid_field(buffer@),
            field_digit_count(buffer@) <= 9,
            body == field_body(buffer@),
            body =~= buffer@.skip(first as int),
            first <= i <= dot,
            dot == buffer@.len() - 2,
            first <= 1,
            acc == digits_to_int(body.take(i - first)),
        decreases dot - i,
    {
        proof {
            assert(all_digits(body.take(body.len() - 2)));
            assert(all_digits(body.take(i - first))) by {
                assert(forall|j: int| 0 <= j < i - first ==> #[trigger] body.take(i - first)[j]
                    == body.take(body.len() - 2)[j]);
            }
            assert(is_ascii_digit(buffer@[i as int])) by {
                assert(body.take(body.len() - 2)[i - first] == buffer@[i as int]);
            }
            lemma_digits_bounds(body.take(i - first));
            lemma_pow10_monotonic((i - first) as nat, 7);
            lemma_pow10_values();
        }
        acc = acc * 10 + (buffer[i] - 48) as i32;
        proof {
            assert(body.take(i - first).push(buffer@[i as int]) =~= body.take(i + 1 - first));
            lemma_digits_push(body.take(i - first), buffer@[i as int]);
        }
        i = i + 1;
    }
    proof {
        assert(body.take(dot - first) =~= body.take(body.len() - 2));
        assert(all_digits(body.take(body.len() - 2)));
        lemma_digits_bounds(body.take(body.len() - 2));
        lemma_pow10_monotonic((body.len() - 2) as nat, 8);
        lemma_pow10_values();
        assert(buffer@[len - 1] == body.last());
        assert(is_ascii_digit(body.last()));
        lemma_digits_push(body.take(body.len() - 2), body.last());
        assert(field_digits(buffer@) == body.take(body.len() - 2).push(body.last()));
    }
    acc = acc * 10 + (buffer[len - 1] - 48) as i32;
    if neg {
        acc = -acc;
    }
    acc
}

/// A field of at most nine digits denotes a value within a billion tenths.
pub proof fn lemma_field_value_bound(s: Seq<u8>)
    requires
        valid_field(s),
        field_digit_count(s) <= 9,
    ensures
        -1000000000 < field_value(s) < 1000000000,
{
    let body = field_body(s);
    let fd = field_digits(s);
    assert(all_digits(body.take(body.len() - 2)));
    assert(all_digits(fd)) by {
        assert forall|j: int| 0 <= j < fd.len() implies is_ascii_digit(fd[j]) by {
            if j < fd.len() - 1 {
                assert(fd[j] == body.take(body.len() - 2)[j]);
            } else {
                assert(fd[j] == body.last());
            }
        }
    }
    lemma_digits_bounds(fd);
    lemma_pow10_monotonic(fd.len() as nat, 9);
    lemma_pow10_values();
}

/// The concrete powers of ten that bound a nine-digit value.
pub proof fn lemma_pow10_values()
    ensures
        pow10(7) == 10000000,
        pow10(8) == 100000000,
        pow10(9) == 1000000000,
{
    reveal_with_fuel(pow10, 11);
}

/// Powers of ten grow with the exponent.
pub proof fn lemma_pow10_monotonic(a: nat, b: nat)
    requires
        a <= b,
    ensures
        pow10(a) <= pow10(b),
    decreases b,
{
    if a < b {
        lemma_pow10_monotonic(a, (b - 1) as nat);
        assert(pow10((b - 1) as nat) >= 1) by {
            lemma_pow10_positive((b - 1) as nat);
        }
    }
}

/// Powers of ten are at least one.
pub proof fn lemma_pow10_positive(n: nat)
    ensures
        pow10(n) >= 1,
    decreases n,
{
    if n > 0 {
        lemma_pow10_positive((n - 1) as nat);
    }
}

} // verus!

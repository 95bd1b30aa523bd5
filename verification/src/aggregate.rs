//! The aggregation pass: scan a byte range of the input, split each line
//! into key and value at the delimiter, parse the value, and fold it into a
//! per-key statistics table.
//!
//! A chunk is well formed when every line is `key;value` terminated by a
//! line feed, with a value field of at most nine digits. The pass is
//! specified against `lines_of`, the mathematical decomposition of the range
//! into lines, and `agg`, the fold of those lines into a map.

use crate::parse::{
    field_digit_count, field_value, lemma_field_value_bound, parse_ascii_digits, valid_field,
};
use crate::scan::{find_byte, find_in_range, lemma_find_byte_range};
use crate::stats::{stats_add, Stats};
use crate::table::{map_add_spec, StationMap};
use vstd::arithmetic::mul::lemma_mul_inequality;
use vstd::prelude::*;
use vstd::slice::slice_subrange;

verus! {

/// One parsed line: the key bytes and the value in tenths of a unit.
pub struct LineSpec {
    pub key: Seq<u8>,
    pub value: int,
}

/// A chunk is well formed when it is empty or starts with a line
/// `key;value\n` whose value field is well formed and holds at most nine
/// digits, followed by a well-formed rest.
pub open spec fn well_formed_chunk(buf: Seq<u8>, start: int, end: int) -> bool
    decreases end - start,
        via well_formed_chunk_dec
{
    if start >= end {
        true
    } else {
        let nl = find_byte(buf, start, end, 10u8);
        let semi = find_byte(buf, start, end, 59u8);
        &&& nl < end
        &&& semi < nl
        &&& valid_field(buf.subrange(semi + 1, nl))
        &&& field_digit_count(buf.subrange(semi + 1, nl)) <= 9
        &&& well_formed_chunk(buf, nl + 1, end)
    }
}

#[via_fn]
proof fn well_formed_chunk_dec(buf: Seq<u8>, start: int, end: int) {
    if start < end {
        lemma_find_byte_range(buf, start, end, 10u8);
    }
}

/// The lines of a byte range: each `key;value\n` in order. A range whose
/// first remaining line never terminates contributes nothing.
pub open spec fn lines_of(buf: Seq<u8>, start: int, end: int) -> Seq<LineSpec>
    decreases end - start,
        via lines_of_dec
{
    if start >= end {
        Seq::empty()
    } else {
        let nl = find_byte(buf, start, end, 10u8);
        let semi = find_byte(buf, start, end, 59u8);
        if nl >= end {
            Seq::empty()
        } else {
            seq![
                LineSpec {
                    key: buf.subrange(start, semi),
                    value: field_value(buf.subrange(semi + 1, nl)),
                },
            ] + lines_of(buf, nl + 1, end)
        }
    }
}

#[via_fn]
proof fn lines_of_dec(buf: Seq<u8>, start: int, end: int) {
    if start < end {
        lemma_find_byte_range(buf, start, end, 10u8);
    }
}

/// Fold one line into an aggregate map.
pub open spec fn agg_step(m: Map<Seq<u8>, Stats>, l: LineSpec) -> Map<Seq<u8>, Stats> {
    map_add_spec(m, l.key, l.value)
}

/// The aggregate of a sequence of lines: per key, the statistics of all the
/// values on that key's lines.
pub open spec fn agg(lines: Seq<LineSpec>) -> Map<Seq<u8>, Stats>
    decreases lines.len(),
{
    if lines.len() == 0 {
        Map::empty()
    } else {
        agg_step(agg(lines.drop_last()), lines.last())
    }
}

/// Law: a degenerate chunk, one whose range is empty, holds no lines and
/// aggregates to the empty map.
pub proof fn lemma_degenerate_chunk(buf: Seq<u8>, pos: int)
    ensures
        lines_of(buf, pos, pos) == Seq::<LineSpec>::empty(),
        agg(lines_of(buf, pos, pos)) == Map::<Seq<u8>, Stats>::empty(),
{
}

/// Law: aggregating `n` copies of the same line gives that key a count of
/// `n`, a sum of `n` times the value, and the value as both minimum and
/// maximum — and no other key.
pub proof fn lemma_repeated_aggregation(k: Seq<u8>, v: int, n: nat)
    requires
        n >= 1,
    ensures
        agg(Seq::new(n, |i: int| LineSpec { key: k, value: v })) == Map::<
            Seq<u8>,
            Stats,
        >::empty().insert(k, Stats { min: v, max: v, count: n as int, sum: n * v }),
    decreases n,
{
    let lines = Seq::new(n, |i: int| LineSpec { key: k, value: v });
    if n == 1 {
        assert(lines.drop_last() =~= Seq::<LineSpec>::empty());
        assert(agg(Seq::<LineSpec>::empty()) == Map::<Seq<u8>, Stats>::empty());
        assert(agg(lines) == agg_step(Map::<Seq<u8>, Stats>::empty(), lines.last()));
        assert(1 * v == v) by (nonlinear_arith);
    } else {
        let prev = Seq::new((n - 1) as nat, |i: int| LineSpec { key: k, value: v });
        assert(lines.drop_last() =~= prev);
        lemma_repeated_aggregation(k, v, (n - 1) as nat);
        let sp = Stats { min: v, max: v, count: n as int - 1, sum: (n - 1) * v };
        assert(agg(prev).contains_key(k) && agg(prev)[k] == sp);
        assert(agg(lines) == agg(prev).insert(k, stats_add(sp, v)));
        assert(n * v == (n - 1) * v + v) by (nonlinear_arith);
        assert(agg(prev).insert(k, stats_add(sp, v)) =~= Map::<Seq<u8>, Stats>::empty().insert(
            k,
            Stats { min: v, max: v, count: n as int, sum: n * v },
        ));
    }
}

/// Every line value within the bound.
pub open spec fn lines_bounded(lines: Seq<LineSpec>, bound: int) -> bool {
    forall|i: int| 0 <= i < lines.len() ==> -bound <= #[trigger] lines[i].value <= bound
}

/// The lines of a well-formed chunk all carry values within a billion
/// tenths.
pub proof fn lemma_lines_values(buf: Seq<u8>, start: int, end: int)
    requires
        0 <= start <= end <= buf.len(),
        well_formed_chunk(buf, start, end),
    ensures
        lines_bounded(lines_of(buf, start, end), 1000000000),
    decreases end - start,
{
    if start < end {
        let nl = find_byte(buf, start, end, 10u8);
        let semi = find_byte(buf, start, end, 59u8);
        lemma_find_byte_range(buf, start, end, 10u8);
        lemma_field_value_bound(buf.subrange(semi + 1, nl));
        lemma_lines_values(buf, nl + 1, end);
        let rest = lines_of(buf, nl + 1, end);
        assert forall|i: int|
            0 <= i < lines_of(buf, start, end).len() implies -1000000000 <= #[trigger] lines_of(
            buf,
            start,
            end,
        )[i].value <= 1000000000 by {
            if i > 0 {
                assert(lines_of(buf, start, end)[i] == rest[i - 1]);
            }
        }
    }
}

/// Each line of a well-formed chunk takes at least five bytes.
pub proof fn lemma_lines_len(buf: Seq<u8>, start: int, end: int)
    requires
        0 <= start <= end <= buf.len(),
        well_formed_chunk(buf, start, end),
    ensures
        5 * lines_of(buf, start, end).len() <= end - start,
    decreases end - start,
{
    if start < end {
        let nl = find_byte(buf, start, end, 10u8);
        let semi = find_byte(buf, start, end, 59u8);
        lemma_find_byte_range(buf, start, end, 10u8);
        lemma_find_byte_range(buf, start, end, 59u8);
        let f = buf.subrange(semi + 1, nl);
        assert(crate::parse::field_body(f).len() >= 3);
        assert(f.len() >= 3) by {
            if f.len() > 0 && f[0] == 45u8 {
                assert(crate::parse::field_body(f) == f.skip(1));
            }
        }
        assert(nl >= semi + 4);
        lemma_lines_len(buf, nl + 1, end);
        assert(lines_of(buf, start, end).len() == 1 + lines_of(buf, nl + 1, end).len());
    }
}

/// In any aggregate of bounded lines, every key's count stays within the
/// number of lines and its sum, minimum and maximum within the count times
/// the bound.
pub proof fn lemma_agg_bounds(lines: Seq<LineSpec>, bound: int)
    requires
        bound >= 0,
        lines_bounded(lines, bound),
    ensures
        forall|k: Seq<u8>| #[trigger] agg(lines).contains_key(k) ==> 1 <= agg(lines)[k].count
            <= lines.len() && -(agg(lines)[k].count * bound) <= agg(lines)[k].sum <= agg(
            lines,
        )[k].count * bound && -bound <= agg(lines)[k].min <= bound && -bound <= agg(
            lines,
        )[k].max <= bound,
    decreases lines.len(),
{
    if lines.len() > 0 {
        let prefix = lines.drop_last();
        let l = lines.last();
        assert(lines_bounded(prefix, bound)) by {
            assert(forall|i: int| 0 <= i < prefix.len() ==> prefix[i] == lines[i]);
        }
        lemma_agg_bounds(prefix, bound);
        assert(-bound <= l.value <= bound);
        let m = agg(prefix);
        let m2 = agg(lines);
        assert forall|k: Seq<u8>| #[trigger] m2.contains_key(k) implies 1 <= m2[k].count
            <= lines.len() && -(m2[k].count * bound) <= m2[k].sum <= m2[k].count * bound && -bound
            <= m2[k].min <= bound && -bound <= m2[k].max <= bound by {
            if k == l.key {
                if m.contains_key(k) {
                    let c = m[k].count;
                    assert((c + 1) * bound == c * bound + bound) by (nonlinear_arith);
                } else {
                    assert(1 * bound == bound) by (nonlinear_arith);
                }
            }
        }
    }
}

/// Decide whether a byte slice is a well-formed value field of at most nine
/// digits.
pub fn check_field(f: &[u8]) -> (r: bool)
    ensures
        r == (valid_field(f@) && field_digit_count(f@) <= 9),
{
    let n = f.len();
    let first: usize = if n > 0 && f[0] == 45 {
        1
    } else {
        0
    };
    let ghost body = crate::parse::field_body(f@);
    proof {
        assert(body =~= f@.skip(first as int));
    }
    if n < first + 3 {
        return false;
    }
    if f[n - 2] != 46 {
        proof {
            assert(body[body.len() - 2] == f@[n - 2]);
        }
        return false;
    }
    if f[n - 1] < 48 || f[n - 1] > 57 {
        proof {
            assert(body.last() == f@[n - 1]);
        }
        return false;
    }
    if n - first - 1 > 9 {
        return false;
    }
    let mut i: usize = first;
    while i < n - 2
        invariant
            first <= i <= n - 2,
            n == f@.len(),
            n >= first + 3,
            first == (if n > 0 && f@[0] == 45u8 {
                1int
            } else {
                0int
            }),
            body == crate::parse::field_body(f@),
            body =~= f@.skip(first as int),
            forall|j: int| first <= j < i ==> crate::parse::is_ascii_digit(#[trigger] f@[j]),
        decreases n - 2 - i,
    {
        if f[i] < 48 || f[i] > 57 {
            proof {
                if valid_field(f@) {
                    assert(crate::parse::all_digits(body.take(body.len() - 2)));
                    assert(body.take(body.len() - 2)[i - first] == f@[i as int]);
                }
            }
            return false;
        }
        i = i + 1;
    }
    proof {
        assert(body.len() >= 3);
        assert(body[body.len() - 2] == f@[n - 2]);
        assert(body.last() == f@[n - 1]);
        assert(crate::parse::all_digits(body.take(body.len() - 2))) by {
            assert forall|j: int|
                0 <= j < body.len() - 2 implies crate::parse::is_ascii_digit(
                #[trigger] body.take(body.len() - 2)[j],
            ) by {
                assert(body.take(body.len() - 2)[j] == f@[first + j]);
            }
        }
    }
    true
}

/// Decide whether a byte range is a well-formed chunk. Run this over an
/// unchecked buffer before handing it to the aggregation pass; a failure
/// here is the fatal malformed-input condition.
pub fn check_chunk(buffer: &[u8], start: usize, end: usize) -> (r: bool)
    requires
        start <= end,
        end <= buffer@.len(),
    ensures
        r == well_formed_chunk(buffer@, start as int, end as int),
{
    let mut cursor: usize = start;
    while cursor < end
        invariant
            start <= cursor <= end,
            end <= buffer@.len(),
            well_formed_chunk(buffer@, start as int, end as int) == well_formed_chunk(
                buffer@,
                cursor as int,
                end as int,
            ),
        decreases end - cursor,
    {
        let nl = find_in_range(buffer, cursor, end, 10);
        let semi = find_in_range(buffer, cursor, end, 59);
        if nl >= end {
            return false;
        }
        if semi >= nl {
            return false;
        }
        let field = slice_subrange(buffer, semi + 1, nl);
        if !check_field(field) {
            return false;
        }
        cursor = nl + 1;
    }
    true
}

/// Scan one chunk of the buffer and aggregate it: for every line
/// `key;value` in the range, the value is parsed in tenths and folded into
/// the key's statistics. The result is exactly the aggregate of the chunk's
/// lines.
pub fn parse_file_chunk(start: usize, end: usize, buffer: &[u8]) -> (r: StationMap)
    requires
        start <= end,
        end <= buffer@.len(),
        buffer@.len() <= 0xffff_ffff,
        well_formed_chunk(buffer@, start as int, end as int),
    ensures
        r.wf(),
        r@ == agg(lines_of(buffer@, start as int, end as int)),
{
    let mut r = StationMap::new();
    let mut cursor: usize = start;
    let ghost all = lines_of(buffer@, start as int, end as int);
    let ghost mut prefix = Seq::<LineSpec>::empty();
    proof {
        assert(all =~= prefix + lines_of(buffer@, start as int, end as int));
    }
    while cursor < end
        invariant
            start <= cursor <= end,
            end <= buffer@.len(),
            buffer@.len() <= 0xffff_ffff,
            well_formed_chunk(buffer@, cursor as int, end as int),
            all == lines_of(buffer@, start as int, end as int),
            all == prefix + lines_of(buffer@, cursor as int, end as int),
            r.wf(),
            r@ == agg(prefix),
            lines_bounded(prefix, 1000000000),
            5 * prefix.len() <= cursor - start,
        decreases end - cursor,
    {
        let nl = find_in_range(buffer, cursor, end, 10);
        let semi = find_in_range(buffer, cursor, end, 59);
        proof {
            lemma_find_byte_range(buffer@, cursor as int, end as int, 10u8);
        }
        let key = slice_subrange(buffer, cursor, semi);
        let field = slice_subrange(buffer, semi + 1, nl);
        let val = parse_ascii_digits(field);
        let ghost line = LineSpec { key: key@, value: val as int };
        proof {
            lemma_field_value_bound(buffer@.subrange(semi + 1, nl as int));
            if r@.contains_key(key@) {
                lemma_agg_bounds(prefix, 1000000000);
                assert(prefix.len() <= 858993459);
                lemma_mul_inequality(r@[key@].count, 858993459, 1000000000);
            }
        }
        r.add(key, val);
        proof {
            assert(lines_of(buffer@, cursor as int, end as int) == seq![line] + lines_of(
                buffer@,
                nl + 1,
                end as int,
            ));
            let prefix2 = prefix.push(line);
            assert(prefix2.drop_last() =~= prefix);
            assert(prefix2.last() == line);
            assert(agg(prefix2) == agg_step(agg(prefix), line));
            assert(all =~= prefix2 + lines_of(buffer@, nl + 1, end as int)) by {
                assert(prefix + (seq![line] + lines_of(buffer@, nl + 1, end as int)) =~= prefix2
                    + lines_of(buffer@, nl + 1, end as int));
            }
            prefix = prefix2;
        }
        cursor = nl + 1;
    }
    proof {
        assert(lines_of(buffer@, cursor as int, end as int) =~= Seq::<LineSpec>::empty());
        assert(all =~= prefix);
    }
    r
}

} // verus!

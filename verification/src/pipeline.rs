//! The driver: partition the buffer into newline-aligned chunks, aggregate
//! each chunk, merge the per-chunk maps into one global table, and render
//! one sorted line per key. The final table is exactly the aggregate of the
//! buffer's lines, whatever the worker count or chunk boundaries.

use crate::aggregate::{
    agg, lemma_agg_bounds, lemma_lines_len, lemma_lines_values, lines_of, parse_file_chunk,
    well_formed_chunk,
};
use crate::merge::{lemma_chunk_ends_with_newline, lemma_partitioned_agg};
use crate::partition::compute_chunks;
use crate::render::spec_format_line;
use crate::table::{merge_maps, StationMap};
use vstd::arithmetic::mul::lemma_mul_inequality;
use vstd::prelude::*;

verus! {

/// A prefix aggregate and the next chunk's aggregate merge into the longer
/// prefix aggregate, and on common keys the combined counts and sums stay
/// within the machine types, since the whole buffer holds fewer than a
/// billion lines of values under a billion tenths.
proof fn lemma_merge_precond(buf: Seq<u8>, s: int, e: int)
    requires
        0 <= s <= e <= buf.len() <= 0xffff_ffff,
        well_formed_chunk(buf, 0, e),
        s == 0 || s == e || buf[s - 1] == 10u8,
    ensures
        well_formed_chunk(buf, s, e),
        agg(lines_of(buf, 0, e)) == merge_maps(
            agg(lines_of(buf, 0, s)),
            agg(lines_of(buf, s, e)),
        ),
        forall|k: Seq<u8>|
            #[trigger] agg(lines_of(buf, 0, s)).contains_key(k) && #[trigger] agg(
                lines_of(buf, s, e),
            ).contains_key(k) ==> agg(lines_of(buf, 0, s))[k].count + agg(
                lines_of(buf, s, e),
            )[k].count <= u32::MAX && i64::MIN < agg(lines_of(buf, 0, s))[k].sum + agg(
                lines_of(buf, s, e),
            )[k].sum <= i64::MAX,
{
    lemma_partitioned_agg(buf, 0, s, e);
    lemma_lines_values(buf, 0, e);
    lemma_lines_len(buf, 0, e);
    lemma_agg_bounds(lines_of(buf, 0, e), 1000000000);
    let g = agg(lines_of(buf, 0, s));
    let l = agg(lines_of(buf, s, e));
    let merged = agg(lines_of(buf, 0, e));
    assert(lines_of(buf, 0, e).len() <= 858993459);
    assert forall|k: Seq<u8>|
        #[trigger] g.contains_key(k) && #[trigger] l.contains_key(k) implies g[k].count
        + l[k].count <= u32::MAX && i64::MIN < g[k].sum + l[k].sum <= i64::MAX by {
        assert(merged.contains_key(k));
        assert(merged[k] == crate::stats::stats_merge(g[k], l[k]));
        lemma_mul_inequality(merged[k].count, 858993459, 1000000000);
    }
}

/// Run the whole pipeline sequentially: partition, aggregate every chunk,
/// merge, and format. Returns the global table and the formatted lines in
/// ascending key order.
#[verifier::rlimit(100)]
pub fn run(buffer: &[u8], workers: usize) -> (r: (StationMap, Vec<Vec<u8>>))
    requires
        1 <= workers,
        buffer@.len() <= 0xffff_ffff,
        well_formed_chunk(buffer@, 0, buffer@.len() as int),
    ensures
        r.0.wf(),
        r.0@ == agg(lines_of(buffer@, 0, buffer@.len() as int)),
        r.1@.len() == r.0.keys_in_order().len(),
        forall|i: int| 0 <= i < r.1@.len() ==> r.1@[i]@ == spec_format_line(
            r.0.keys_in_order()[i],
            r.0@[r.0.keys_in_order()[i]],
        ),
{
    let len = buffer.len();
    let chunks = compute_chunks(buffer, workers);
    let mut global = StationMap::new();
    let mut i: usize = 0;
    proof {
        assert(lines_of(buffer@, 0, 0) =~= Seq::<crate::aggregate::LineSpec>::empty());
    }
    while i < workers
        invariant
            i <= workers,
            len == buffer@.len(),
            len <= 0xffff_ffff,
            workers >= 1,
            well_formed_chunk(buffer@, 0, len as int),
            chunks@.len() == workers,
            chunks@[0].0 == 0,
            chunks@[workers - 1].1 == len,
            forall|t: int| 0 <= t < workers ==> (#[trigger] chunks@[t]).0 <= chunks@[t].1 <= len,
            forall|t: int| 0 <= t < workers - 1 ==> (#[trigger] chunks@[t]).1 == chunks@[t
                + 1].0,
            (len > 0 && buffer@[len - 1] == 10u8) ==> forall|t: int|
                0 <= t < workers - 1 ==> (#[trigger] chunks@[t]).1 >= 1 && buffer@[chunks@[t].1
                    - 1] == 10u8,
            global.wf(),
            ({
                let b = if i == 0 {
                    0int
                } else {
                    chunks@[i - 1].1 as int
                };
                &&& global@ == agg(lines_of(buffer@, 0, b))
                &&& well_formed_chunk(buffer@, b, len as int)
                &&& 0 <= b <= len
                &&& (i < workers ==> b == chunks@[i as int].0)
            }),
        decreases workers - i,
    {
        let c = chunks[i];
        let s = c.0;
        let e = c.1;
        proof {
            if len > 0 {
                lemma_chunk_ends_with_newline(buffer@, 0, len as int);
            }
            assert(e == s || e == len || (e >= 1 && buffer@[e - 1] == 10u8)) by {
                if i < workers - 1 && e != s {
                    assert(s <= e <= len);
                    if len == 0 {
                        assert(e == 0 && s == 0);
                    }
                }
            }
            assert(s == 0 || s == e || (s >= 1 && buffer@[s - 1] == 10u8)) by {
                if i > 0 && s != e {
                    if len == 0 {
                        assert(s == 0);
                    } else {
                        assert(s == chunks@[i - 1].1);
                    }
                }
            }
            lemma_partitioned_agg(buffer@, s as int, e as int, len as int);
            lemma_partitioned_agg(buffer@, 0, e as int, len as int);
            lemma_merge_precond(buffer@, s as int, e as int);
        }
        let local = parse_file_chunk(s, e, buffer);
        global.merge_from(&local);
        proof {
            if i + 1 < workers {
                assert(chunks@[i as int].1 == chunks@[i + 1].0);
            }
        }
        i = i + 1;
    }
    let lines = global.format_results();
    (global, lines)
}

} // verus!

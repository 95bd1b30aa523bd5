//! The merge laws: combining per-chunk aggregates is commutative and
//! associative, and aggregating a range in one piece or split at any line
//! boundary gives the same map. Together these make the global result
//! independent of how the input was partitioned and in which order the
//! chunks were merged.

use crate::aggregate::{agg, agg_step, lines_of, well_formed_chunk, LineSpec};
use crate::scan::{find_byte, lemma_find_byte};
use crate::stats::{
    lemma_stats_merge_add, lemma_stats_merge_assoc, lemma_stats_merge_comm, lemma_stats_merge_one,
    Stats,
};
use crate::table::merge_maps;
use vstd::prelude::*;

verus! {

/// Law: merging the empty aggregate changes nothing.
pub proof fn lemma_merge_empty(a: Map<Seq<u8>, Stats>)
    ensures
        merge_maps(a, Map::<Seq<u8>, Stats>::empty()) == a,
        merge_maps(Map::<Seq<u8>, Stats>::empty(), a) == a,
{
    assert(merge_maps(a, Map::<Seq<u8>, Stats>::empty()) =~= a);
    assert(merge_maps(Map::<Seq<u8>, Stats>::empty(), a) =~= a);
}

/// Law: merging aggregate maps is commutative.
pub proof fn lemma_merge_comm(a: Map<Seq<u8>, Stats>, b: Map<Seq<u8>, Stats>)
    ensures
        merge_maps(a, b) == merge_maps(b, a),
{
    assert(merge_maps(a, b) =~= merge_maps(b, a)) by {
        assert forall|k: Seq<u8>|
            merge_maps(a, b).contains_key(k) implies merge_maps(a, b)[k] == merge_maps(b, a)[k] by {
            if a.contains_key(k) && b.contains_key(k) {
                lemma_stats_merge_comm(a[k], b[k]);
            }
        }
    }
}

/// Law: merging aggregate maps is associative.
pub proof fn lemma_merge_assoc(a: Map<Seq<u8>, Stats>, b: Map<Seq<u8>, Stats>, c: Map<Seq<u8>, Stats>)
    ensures
        merge_maps(merge_maps(a, b), c) == merge_maps(a, merge_maps(b, c)),
{
    assert(merge_maps(merge_maps(a, b), c) =~= merge_maps(a, merge_maps(b, c))) by {
        assert forall|k: Seq<u8>|
            merge_maps(merge_maps(a, b), c).contains_key(k) implies merge_maps(
            merge_maps(a, b),
            c,
        )[k] == merge_maps(a, merge_maps(b, c))[k] by {
            if a.contains_key(k) && b.contains_key(k) && c.contains_key(k) {
                lemma_stats_merge_assoc(a[k], b[k], c[k]);
            }
        }
    }
}

/// Folding one line into the right operand commutes with the merge.
proof fn lemma_merge_step(a: Map<Seq<u8>, Stats>, b: Map<Seq<u8>, Stats>, l: LineSpec)
    ensures
        merge_maps(a, agg_step(b, l)) == agg_step(merge_maps(a, b), l),
{
    assert(merge_maps(a, agg_step(b, l)) =~= agg_step(merge_maps(a, b), l)) by {
        assert forall|k: Seq<u8>|
            merge_maps(a, agg_step(b, l)).contains_key(k) implies merge_maps(a, agg_step(b, l))[k]
            == agg_step(merge_maps(a, b), l)[k] by {
            if k == l.key {
                if a.contains_key(k) && b.contains_key(k) {
                    lemma_stats_merge_add(a[k], b[k], l.value);
                } else if a.contains_key(k) {
                    lemma_stats_merge_one(a[k], l.value);
                }
            }
        }
    }
}

/// Law: the aggregate of concatenated line sequences is the merge of their
/// aggregates, so any grouping of the lines into chunks yields, merged, the
/// same global map.
pub proof fn lemma_agg_concat(l1: Seq<LineSpec>, l2: Seq<LineSpec>)
    ensures
        agg(l1 + l2) == merge_maps(agg(l1), agg(l2)),
    decreases l2.len(),
{
    if l2.len() == 0 {
        assert(l1 + l2 =~= l1);
        lemma_merge_empty(agg(l1));
        assert(agg(l2) == Map::<Seq<u8>, Stats>::empty());
    } else {
        let l2p = l2.drop_last();
        assert((l1 + l2).drop_last() =~= l1 + l2p);
        assert((l1 + l2).last() == l2.last());
        lemma_agg_concat(l1, l2p);
        lemma_merge_step(agg(l1), agg(l2p), l2.last());
        assert(agg(l1 + l2) == agg_step(agg(l1 + l2p), l2.last()));
    }
}

/// Law: a well-formed chunk splits at any interior line boundary: both
/// halves are well formed and its lines are the two halves' lines in order.
pub proof fn lemma_chunk_split(buf: Seq<u8>, a: int, m: int, c: int)
    requires
        0 <= a <= m <= c <= buf.len(),
        well_formed_chunk(buf, a, c),
        m == a || m == c || buf[m - 1] == 10u8,
    ensures
        well_formed_chunk(buf, a, m),
        well_formed_chunk(buf, m, c),
        lines_of(buf, a, c) == lines_of(buf, a, m) + lines_of(buf, m, c),
    decreases c - a,
{
    if m == a {
        assert(lines_of(buf, a, m) =~= Seq::<LineSpec>::empty());
        assert(lines_of(buf, a, c) =~= lines_of(buf, a, m) + lines_of(buf, m, c));
    } else if m == c {
        assert(lines_of(buf, m, c) =~= Seq::<LineSpec>::empty());
        assert(lines_of(buf, a, c) =~= lines_of(buf, a, m) + lines_of(buf, m, c));
    } else {
        let nl = find_byte(buf, a, c, 10u8);
        let semi = find_byte(buf, a, c, 59u8);
        lemma_find_byte(buf, a, c, 10u8);
        lemma_find_byte(buf, a, c, 59u8);
        assert(nl <= m - 1) by {
            if nl > m - 1 {
                assert(buf[m - 1] != 10u8);
            }
        }
        lemma_find_byte(buf, a, m, 10u8);
        let nlm = find_byte(buf, a, m, 10u8);
        assert(nlm == nl) by {
            if nlm < nl {
                assert(buf[nlm] != 10u8);
            }
            if nlm > nl {
                assert(buf[nl] != 10u8);
            }
        }
        lemma_find_byte(buf, a, m, 59u8);
        let semim = find_byte(buf, a, m, 59u8);
        assert(semim == semi) by {
            if semim < semi {
                assert(buf[semim] != 59u8);
            }
            if semim > semi {
                assert(buf[semi] != 59u8);
            }
        }
        lemma_chunk_split(buf, nl + 1, m, c);
        assert(well_formed_chunk(buf, a, m));
        assert(lines_of(buf, a, m) == seq![
            LineSpec {
                key: buf.subrange(a, semi),
                value: crate::parse::field_value(buf.subrange(semi + 1, nl)),
            },
        ] + lines_of(buf, nl + 1, m));
        assert(lines_of(buf, a, c) =~= lines_of(buf, a, m) + lines_of(buf, m, c)) by {
            assert(lines_of(buf, nl + 1, c) == lines_of(buf, nl + 1, m) + lines_of(buf, m, c));
        }
    }
}

/// Law: aggregating a range in one piece is merging the aggregates of its
/// two halves, split at any line boundary.
pub proof fn lemma_partitioned_agg(buf: Seq<u8>, a: int, m: int, c: int)
    requires
        0 <= a <= m <= c <= buf.len(),
        well_formed_chunk(buf, a, c),
        m == a || m == c || buf[m - 1] == 10u8,
    ensures
        well_formed_chunk(buf, a, m),
        well_formed_chunk(buf, m, c),
        agg(lines_of(buf, a, c)) == merge_maps(
            agg(lines_of(buf, a, m)),
            agg(lines_of(buf, m, c)),
        ),
{
    lemma_chunk_split(buf, a, m, c);
    lemma_agg_concat(lines_of(buf, a, m), lines_of(buf, m, c));
}

/// A non-empty well-formed chunk ends with a line terminator.
pub proof fn lemma_chunk_ends_with_newline(buf: Seq<u8>, a: int, c: int)
    requires
        0 <= a < c <= buf.len(),
        well_formed_chunk(buf, a, c),
    ensures
        buf[c - 1] == 10u8,
    decreases c - a,
{
    let nl = find_byte(buf, a, c, 10u8);
    crate::scan::lemma_find_byte_range(buf, a, c, 10u8);
    if nl + 1 < c {
        lemma_chunk_ends_with_newline(buf, nl + 1, c);
    } else {
        assert(nl == c - 1);
        lemma_find_byte(buf, a, c, 10u8);
    }
}

} // verus!

//! Partitioning the buffer into newline-aligned chunks: naive boundaries at
//! multiples of `len / workers`, each advanced to one past the next line
//! terminator so that no split falls mid-line. A boundary whose remaining
//! bytes hold no terminator stays where it is; the final boundary is always
//! the buffer end.

use crate::scan::{find_byte, find_in_range, lemma_find_byte, lemma_find_byte_range};
use vstd::arithmetic::div_mod::{lemma_fundamental_div_mod, lemma_mod_bound};
use vstd::arithmetic::mul::lemma_mul_inequality;
use vstd::prelude::*;

verus! {

/// Where a naive boundary settles: one past the first line terminator at or
/// after `pos`, or `pos` itself when the rest of the buffer holds none.
pub open spec fn chunk_boundary(buf: Seq<u8>, pos: int) -> int {
    let f = find_byte(buf, pos, buf.len() as int, 10u8);
    if f < buf.len() {
        f + 1
    } else {
        pos
    }
}

/// Boundaries stay within the buffer and never cross.
pub proof fn lemma_boundary_monotone(buf: Seq<u8>, pos1: int, pos2: int)
    requires
        0 <= pos1 <= pos2 <= buf.len(),
    ensures
        pos1 <= chunk_boundary(buf, pos1) <= buf.len(),
        chunk_boundary(buf, pos1) <= chunk_boundary(buf, pos2),
{
    let len = buf.len() as int;
    lemma_find_byte(buf, pos1, len, 10u8);
    lemma_find_byte(buf, pos2, len, 10u8);
    let f1 = find_byte(buf, pos1, len, 10u8);
    let f2 = find_byte(buf, pos2, len, 10u8);
    if f1 < len {
        if f2 < len {
            if f2 < f1 && f2 >= pos1 {
                assert(buf[f2] != 10u8);
            }
        } else {
            if f1 >= pos2 {
                assert(buf[f1] != 10u8);
            }
        }
    } else {
        if f2 < len {
            assert(buf[f2] != 10u8);
        }
    }
}

/// Law: in a buffer that ends with a line terminator, every boundary except
/// the buffer end itself lands one past a line terminator.
pub proof fn lemma_boundary_aligned(buf: Seq<u8>, pos: int)
    requires
        0 <= pos < buf.len(),
        buf[buf.len() - 1] == 10u8,
    ensures
        pos < chunk_boundary(buf, pos) <= buf.len(),
        buf[chunk_boundary(buf, pos) - 1] == 10u8,
{
    let len = buf.len() as int;
    lemma_find_byte(buf, pos, len, 10u8);
    let f = find_byte(buf, pos, len, 10u8);
    if f == len {
        assert(buf[len - 1] != 10u8);
    }
}

/// One past the first line terminator at or after `pos`, or `pos` when none
/// remains.
fn next_boundary(buffer: &[u8], pos: usize) -> (r: usize)
    requires
        pos <= buffer@.len(),
    ensures
        r == chunk_boundary(buffer@, pos as int),
        pos <= r <= buffer@.len(),
{
    let f = find_in_range(buffer, pos, buffer.len(), 10);
    proof {
        lemma_find_byte_range(buffer@, pos as int, buffer@.len() as int, 10u8);
    }
    if f < buffer.len() {
        f + 1
    } else {
        pos
    }
}

/// Partition the buffer into `workers` contiguous half-open ranges that
/// cover it exactly once. Every range start past the first is the settled
/// boundary of its naive position; when the buffer ends with a line
/// terminator, every non-final range end sits one past a terminator.
pub fn compute_chunks(buffer: &[u8], workers: usize) -> (r: Vec<(usize, usize)>)
    requires
        1 <= workers,
    ensures
        r@.len() == workers,
        r@[0].0 == 0,
        r@[workers - 1].1 == buffer@.len(),
        forall|i: int| 0 <= i < workers ==> (#[trigger] r@[i]).0 <= r@[i].1 <= buffer@.len(),
        forall|i: int| 0 <= i < workers - 1 ==> (#[trigger] r@[i]).1 == r@[i + 1].0,
        forall|i: int| 1 <= i < workers ==> (#[trigger] r@[i]).0 == chunk_boundary(
            buffer@,
            i * ((buffer@.len() as int) / (workers as int)),
        ),
        (buffer@.len() > 0 && buffer@[buffer@.len() - 1] == 10u8) ==> forall|i: int|
            0 <= i < workers - 1 ==> (#[trigger] r@[i]).1 >= 1 && buffer@[r@[i].1 - 1] == 10u8,
{
    let len = buffer.len();
    let chunk_size = len / workers;
    proof {
        lemma_fundamental_div_mod(len as int, workers as int);
    }
    let mut starts: Vec<usize> = Vec::new();
    starts.push(0);
    let mut i: usize = 1;
    while i < workers
        invariant
            1 <= i <= workers,
            starts@.len() == i,
            starts@[0] == 0,
            len == buffer@.len(),
            workers >= 1,
            chunk_size == (len as int) / (workers as int),
            forall|j: int| 1 <= j < i ==> starts@[j] == chunk_boundary(
                buffer@,
                j * (chunk_size as int),
            ),
            forall|j: int| 0 <= j < i - 1 ==> #[trigger] starts@[j] <= starts@[j + 1],
            forall|j: int| 0 <= j < i ==> #[trigger] starts@[j] <= len,
        decreases workers - i,
    {
        proof {
            lemma_fundamental_div_mod(len as int, workers as int);
            lemma_mod_bound(len as int, workers as int);
            lemma_mul_inequality(i as int, workers as int - 1, chunk_size as int);
            assert((workers - 1) * chunk_size == workers * chunk_size - chunk_size)
                by (nonlinear_arith);
            assert(workers * chunk_size <= len);
        }
        let naive = i * chunk_size;
        let b = next_boundary(buffer, naive);
        proof {
            if i > 1 {
                lemma_mul_inequality(i as int - 1, i as int, chunk_size as int);
                lemma_boundary_monotone(
                    buffer@,
                    (i - 1) * (chunk_size as int),
                    i as int * (chunk_size as int),
                );
            }
        }
        starts.push(b);
        i = i + 1;
    }
    let mut r: Vec<(usize, usize)> = Vec::new();
    let mut j: usize = 0;
    while j < workers
        invariant
            j <= workers,
            r@.len() == j,
            starts@.len() == workers,
            starts@[0] == 0,
            len == buffer@.len(),
            chunk_size == (len as int) / (workers as int),
            forall|t: int| 1 <= t < workers ==> starts@[t] == chunk_boundary(
                buffer@,
                t * (chunk_size as int),
            ),
            forall|t: int| 0 <= t < workers - 1 ==> #[trigger] starts@[t] <= starts@[t + 1],
            forall|t: int| 0 <= t < workers ==> #[trigger] starts@[t] <= len,
            forall|t: int| 0 <= t < j ==> (#[trigger] r@[t]).0 == starts@[t],
            forall|t: int| 0 <= t < j ==> (#[trigger] r@[t]).1 == (if t < workers - 1 {
                starts@[t + 1] as int
            } else {
                len as int
            }),
        decreases workers - j,
    {
        let e = if j + 1 < workers {
            starts[j + 1]
        } else {
            len
        };
        r.push((starts[j], e));
        j = j + 1;
    }
    proof {
        if buffer@.len() > 0 && buffer@[buffer@.len() - 1] == 10u8 {
            assert forall|t: int| 0 <= t < workers - 1 implies (#[trigger] r@[t]).1 >= 1
                && buffer@[r@[t].1 - 1] == 10u8 by {
                let naive = (t + 1) * (chunk_size as int);
                assert(naive < len) by {
                    lemma_fundamental_div_mod(len as int, workers as int);
                    lemma_mod_bound(len as int, workers as int);
                    lemma_mul_inequality(t + 1, workers as int - 1, chunk_size as int);
                    assert((workers - 1) * chunk_size == workers * chunk_size - chunk_size)
                        by (nonlinear_arith);
                    if chunk_size == 0 {
                        assert(naive == 0) by (nonlinear_arith)
                            requires
                                naive == (t + 1) * (chunk_size as int),
                                chunk_size == 0,
                        ;
                    }
                }
                assert(naive >= 0) by (nonlinear_arith)
                    requires
                        naive == (t + 1) * (chunk_size as int),
                        t >= 0,
                        chunk_size >= 0,
                ;
                lemma_boundary_aligned(buffer@, naive);
                assert(r@[t].1 == starts@[t + 1]);
            }
        }
    }
    r
}

} // verus!

//! Byte search over the input buffer: the first occurrence of a delimiter or
//! line terminator at or after a cursor.

use vstd::prelude::*;
use vstd::slice::slice_subrange;

verus! {

/// The index of the first occurrence of `b` in `s[start..end]`, or `end`
/// when there is none.
pub open spec fn find_byte(s: Seq<u8>, start: int, end: int, b: u8) -> int
    decreases end - start,
{
    if start >= end {
        end
    } else if s[start] == b {
        start
    } else {
        find_byte(s, start + 1, end, b)
    }
}

/// What `find_byte` returns: the first occurrence in the range, or the range
/// end when the byte does not occur.
pub proof fn lemma_find_byte(s: Seq<u8>, start: int, end: int, b: u8)
    requires
        0 <= start <= end <= s.len(),
    ensures
        start <= find_byte(s, start, end, b) <= end,
        find_byte(s, start, end, b) < end ==> s[find_byte(s, start, end, b)] == b,
        forall|j: int| start <= j < find_byte(s, start, end, b) ==> s[j] != b,
        find_byte(s, start, end, b) == end ==> forall|j: int| start <= j < end ==> s[j] != b,
    decreases end - start,
{
    if start < end && s[start] != b {
        lemma_find_byte(s, start + 1, end, b);
    }
}

/// The search result stays within the searched range.
pub proof fn lemma_find_byte_range(s: Seq<u8>, start: int, end: int, b: u8)
    requires
        start <= end,
    ensures
        start <= find_byte(s, start, end, b) <= end,
    decreases end - start,
{
    if start < end && s[start] != b {
        lemma_find_byte_range(s, start + 1, end, b);
    }
}

/// Relies on memchr::memchr: the index of the first occurrence of `needle`
/// in `haystack`, or `None` when `needle` does not occur in it.
#[verifier::external_body]
fn memchr_first(needle: u8, haystack: &[u8]) -> (r: Option<usize>)
    ensures
        match r {
            Some(i) => i < haystack@.len() && haystack@[i as int] == needle && forall|j: int|
                0 <= j < i ==> haystack@[j] != needle,
            None => forall|j: int| 0 <= j < haystack@.len() ==> haystack@[j] != needle,
        },
{
    memchr::memchr(needle, haystack)
}

/// The index of the first occurrence of `needle` in `buffer[start..end]`, or
/// `end` when there is none.
pub fn find_in_range(buffer: &[u8], start: usize, end: usize, needle: u8) -> (r: usize)
    requires
        start <= end <= buffer@.len(),
    ensures
        r == find_byte(buffer@, start as int, end as int, needle),
        start <= r <= end,
    {
    let sub = slice_subrange(buffer, start, end);
    let found = memchr_first(needle, sub);
    proof {
        lemma_find_byte(buffer@, start as int, end as int, needle);
    }
    match found {
        Some(i) => {
            proof {
                let f = find_byte(buffer@, start as int, end as int, needle);
                assert(buffer@[start + i] == needle);
                assert(f < end);
                if f < start + i {
                    assert(sub@[f - start] == needle);
                    assert(false);
                }
                if f > start + i {
                    assert(buffer@[start + i] != needle);
                    assert(false);
                }
            }
            start + i
        },
        None => {
            proof {
                let f = find_byte(buffer@, start as int, end as int, needle);
                if f < end {
                    assert(sub@[f - start] == needle);
                    assert(false);
                }
            }
            end
        },
    }
}

/// The index of the first line terminator at or after `start`, or `start`
/// itself when the rest of the buffer holds none.
pub fn find_next_newline(start: usize, buffer: &[u8]) -> (r: usize)
    requires
        start <= buffer@.len(),
    ensures
        ({
            let f = find_byte(buffer@, start as int, buffer@.len() as int, 10u8);
            r == if f < buffer@.len() {
                f
            } else {
                start as int
            }
        }),
{
    let f = find_in_range(buffer, start, buffer.len(), 10);
    if f < buffer.len() {
        f
    } else {
        start
    }
}

} // verus!

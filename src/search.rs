//! Searching one byte slice: counting occurrences of a needle with the
//! substring search of `memchr`, counting one byte with `bytecount`, and
//! finding the suffix that may still grow into an occurrence.

use vstd::prelude::*;

use crate::occurrences::{byte_count, count_before, is_candidate, is_prefix_of, occurs_at};
use crate::occurrences::{lemma_count_flat, lemma_count_le, lemma_occurs_shift};

verus! {

/// Relies on `memchr::memmem::find`: the position of the first occurrence of
/// `needle` in `haystack`, or `None` when it does not occur there.
pub assume_specification[ memchr::memmem::find ](haystack: &[u8], needle: &[u8]) -> (r: Option<
    usize,
>)
    ensures
        match r {
            Some(i) => occurs_at(haystack@, needle@, i as int) && forall|j: int|
                0 <= j < i ==> !#[trigger] occurs_at(haystack@, needle@, j),
            None => forall|j: int| 0 <= j ==> !#[trigger] occurs_at(haystack@, needle@, j),
        },
;

/// Relies on `bytecount::count`: the number of bytes of `haystack` equal to `needle`.
pub assume_specification[ bytecount::count ](haystack: &[u8], needle: u8) -> (r: usize)
    ensures
        r == byte_count(haystack@, needle),
;

/// Counts the positions below `limit` at which `needle` occurs in `haystack`,
/// overlapping ones each counted.
pub fn count_matches(haystack: &[u8], needle: &[u8], limit: usize) -> (r: usize)
    requires
        needle@.len() >= 1,
        limit <= haystack@.len(),
    ensures
        r == count_before(haystack@, needle@, limit as int),
{
    let mut x: usize = 0;
    let mut r: usize = 0;
    while x < limit
        invariant
            x <= limit,
            limit <= haystack@.len(),
            needle@.len() >= 1,
            r == count_before(haystack@, needle@, x as int),
        decreases limit - x,
    {
        let rest = &haystack[x..haystack.len()];
        match memchr::memmem::find(rest, needle) {
            Some(i) => {
                proof {
                    assert forall|j: int| x <= j < x + i implies !#[trigger] occurs_at(
                        haystack@,
                        needle@,
                        j,
                    ) by {
                        lemma_occurs_shift(haystack@, needle@, x as int, j - x);
                    }
                    lemma_occurs_shift(haystack@, needle@, x as int, i as int);
                }
                if i >= limit - x {
                    proof {
                        lemma_count_flat(haystack@, needle@, x as int, limit as int);
                    }
                    return r;
                }
                proof {
                    lemma_count_flat(haystack@, needle@, x as int, (x + i) as int);
                    lemma_count_le(haystack@, needle@, (x + i) as int);
                }
                r = r + 1;
                x = x + i + 1;
            },
            None => {
                proof {
                    assert forall|j: int| x <= j < limit implies !#[trigger] occurs_at(
                        haystack@,
                        needle@,
                        j,
                    ) by {
                        lemma_occurs_shift(haystack@, needle@, x as int, j - x);
                    }
                    lemma_count_flat(haystack@, needle@, x as int, limit as int);
                }
                return r;
            },
        }
    }
    r
}

/// Whether `p` is a prefix of `needle`.
fn starts_with(needle: &[u8], p: &[u8]) -> (r: bool)
    ensures
        r == is_prefix_of(p@, needle@),
{
    if p.len() > needle.len() {
        return false;
    }
    let mut i: usize = 0;
    while i < p.len()
        invariant
            i <= p@.len() <= needle@.len(),
            forall|j: int| 0 <= j < i ==> p@[j] == needle@[j],
        decreases p@.len() - i,
    {
        if p[i] != needle[i] {
            assert(needle@.subrange(0, p@.len() as int)[i as int] != p@[i as int]);
            return false;
        }
        i = i + 1;
    }
    assert(needle@.subrange(0, p@.len() as int) =~= p@);
    true
}

/// The first position of `buf` from which the rest of `buf` is a prefix of
/// `needle`; `buf.len()` when there is none before it.
pub fn first_possible_prefix(needle: &[u8], buf: &[u8]) -> (r: usize)
    ensures
        r <= buf@.len(),
        is_candidate(buf@, needle@, r as int),
        forall|j: int| 0 <= j < r ==> !#[trigger] is_candidate(buf@, needle@, j),
{
    let mut i: usize = 0;
    while i < buf.len()
        invariant
            i <= buf@.len(),
            forall|j: int| 0 <= j < i ==> !#[trigger] is_candidate(buf@, needle@, j),
        decreases buf@.len() - i,
    {
        let rest = &buf[i..buf.len()];
        if starts_with(needle, rest) {
            return i;
        }
        i = i + 1;
    }
    assert(buf@.subrange(buf@.len() as int, buf@.len() as int) =~= needle@.subrange(0, 0));
    buf.len()
}

} // verus!

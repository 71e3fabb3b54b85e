//! The mathematical model: where a needle occurs in a byte sequence, how many
//! times, and which suffixes of a sequence may still grow into an occurrence.

use vstd::prelude::*;

verus! {

/// `needle` occurs in `s` at position `i`.
pub open spec fn occurs_at(s: Seq<u8>, needle: Seq<u8>, i: int) -> bool {
    &&& 0 <= i
    &&& i + needle.len() <= s.len()
    &&& s.subrange(i, i + needle.len()) == needle
}

/// The number of positions `i < k` at which `needle` occurs in `s`.
pub open spec fn count_before(s: Seq<u8>, needle: Seq<u8>, k: int) -> nat
    decreases k,
{
    if k <= 0 {
        0
    } else {
        count_before(s, needle, k - 1) + if occurs_at(s, needle, k - 1) {
            1nat
        } else {
            0nat
        }
    }
}

/// The number of positions at which `needle` occurs in `s`, with
/// overlapping ones each counted.
pub open spec fn occurrences(s: Seq<u8>, needle: Seq<u8>) -> nat {
    count_before(s, needle, s.len() as int)
}

/// `p` is a prefix of `needle`.
pub open spec fn is_prefix_of(p: Seq<u8>, needle: Seq<u8>) -> bool {
    p.len() <= needle.len() && needle.subrange(0, p.len() as int) == p
}

/// The suffix of `s` that starts at `i` is a prefix of `needle`: an
/// occurrence starting there is not yet ruled out.
pub open spec fn is_candidate(s: Seq<u8>, needle: Seq<u8>, i: int) -> bool {
    is_prefix_of(s.subrange(i, s.len() as int), needle)
}

/// The number of bytes of `s` that equal `b`.
pub open spec fn byte_count(s: Seq<u8>, b: u8) -> nat
    decreases s.len(),
{
    if s.len() == 0 {
        0
    } else {
        byte_count(s.drop_last(), b) + if s.last() == b {
            1nat
        } else {
            0nat
        }
    }
}

/// `carry` is the longest suffix of `s` that is shorter than `needle` and a
/// prefix of it: every occurrence of `needle` that starts in `s` and runs
/// past its end starts inside `carry`.
pub open spec fn is_carry(s: Seq<u8>, needle: Seq<u8>, carry: Seq<u8>) -> bool {
    &&& carry.len() < needle.len()
    &&& carry.len() <= s.len()
    &&& carry == s.subrange(s.len() - carry.len(), s.len() as int)
    &&& is_prefix_of(carry, needle)
    &&& forall|i: int|
        0 <= i && s.len() - needle.len() < i && i < s.len() - carry.len() ==> !#[trigger] is_candidate(
            s,
            needle,
            i,
        )
}

/// At most one occurrence starts at each position below `k`.
pub proof fn lemma_count_le(s: Seq<u8>, needle: Seq<u8>, k: int)
    requires
        0 <= k,
    ensures
        count_before(s, needle, k) <= k,
    decreases k,
{
    if k > 0 {
        lemma_count_le(s, needle, k - 1);
    }
}

/// With no occurrence in `[k1, k2)`, the counts below `k1` and `k2` agree.
pub proof fn lemma_count_flat(s: Seq<u8>, needle: Seq<u8>, k1: int, k2: int)
    requires
        0 <= k1 <= k2,
        forall|i: int| k1 <= i < k2 ==> !#[trigger] occurs_at(s, needle, i),
    ensures
        count_before(s, needle, k2) == count_before(s, needle, k1),
    decreases k2 - k1,
{
    if k1 < k2 {
        lemma_count_flat(s, needle, k1, k2 - 1);
    }
}

/// Two sequences in which `needle` occurs at the same positions below `k`
/// have the same count below `k`.
pub proof fn lemma_count_same(s: Seq<u8>, t: Seq<u8>, needle: Seq<u8>, k: int)
    requires
        forall|i: int| 0 <= i < k ==> occurs_at(s, needle, i) == occurs_at(t, needle, i),
    ensures
        count_before(s, needle, k) == count_before(t, needle, k),
    decreases k,
{
    if k > 0 {
        lemma_count_same(s, t, needle, k - 1);
    }
}

/// Counting in a suffix of `s` is counting in `s` from where the suffix starts.
pub proof fn lemma_count_shift(s: Seq<u8>, needle: Seq<u8>, off: int, k: int)
    requires
        0 <= off <= s.len(),
        0 <= k <= s.len() - off,
    ensures
        count_before(s, needle, off + k) == count_before(s, needle, off) + count_before(
            s.subrange(off, s.len() as int),
            needle,
            k,
        ),
    decreases k,
{
    if k > 0 {
        lemma_count_shift(s, needle, off, k - 1);
        let t = s.subrange(off, s.len() as int);
        let i = k - 1;
        if occurs_at(t, needle, i) {
            assert(s.subrange(off + i, off + i + needle.len()) =~= t.subrange(
                i,
                i + needle.len(),
            ));
        }
        if occurs_at(s, needle, off + i) {
            assert(s.subrange(off + i, off + i + needle.len()) =~= t.subrange(
                i,
                i + needle.len(),
            ));
        }
    }
}

/// No occurrence of a non-empty needle starts after `s.len() - needle.len()`.
pub proof fn lemma_count_all(s: Seq<u8>, needle: Seq<u8>, k: int)
    requires
        needle.len() >= 1,
        s.len() - needle.len() + 1 <= k,
        0 <= k,
    ensures
        count_before(s, needle, k) <= if s.len() >= needle.len() {
            s.len() - needle.len() + 1
        } else {
            0
        },
{
    let m = if s.len() >= needle.len() {
        s.len() - needle.len() + 1
    } else {
        0
    };
    lemma_count_flat(s, needle, m, k);
    lemma_count_le(s, needle, m);
}

/// The first position at or after `i` from which the rest of `s` is a prefix
/// of `needle`; `s.len()` when there is none before it.
pub open spec fn first_candidate(s: Seq<u8>, needle: Seq<u8>, i: int) -> int
    decreases s.len() - i,
{
    if i >= s.len() {
        s.len() as int
    } else if is_candidate(s, needle, i) {
        i
    } else {
        first_candidate(s, needle, i + 1)
    }
}

/// The longest suffix of `s` that is shorter than `needle` and a prefix of it.
pub open spec fn carry_of(s: Seq<u8>, needle: Seq<u8>) -> Seq<u8> {
    let start = if s.len() + 1 > needle.len() {
        s.len() + 1 - needle.len()
    } else {
        0
    };
    s.subrange(first_candidate(s, needle, start), s.len() as int)
}

/// An occurrence in a suffix of `s` is an occurrence in `s`, shifted.
pub proof fn lemma_occurs_shift(s: Seq<u8>, needle: Seq<u8>, off: int, i: int)
    requires
        0 <= off <= s.len(),
        0 <= i,
    ensures
        occurs_at(s.subrange(off, s.len() as int), needle, i) == occurs_at(s, needle, off + i),
{
    let t = s.subrange(off, s.len() as int);
    if i + needle.len() <= t.len() {
        assert(s.subrange(off + i, off + i + needle.len()) =~= t.subrange(i, i + needle.len()));
    }
}

/// A candidate position of a suffix of `s` is a candidate position of `s`, shifted.
pub proof fn lemma_candidate_shift(s: Seq<u8>, needle: Seq<u8>, off: int, i: int)
    requires
        0 <= off <= s.len(),
        0 <= i <= s.len() - off,
    ensures
        is_candidate(s.subrange(off, s.len() as int), needle, i) == is_candidate(
            s,
            needle,
            off + i,
        ),
{
    let t = s.subrange(off, s.len() as int);
    assert(t.subrange(i, t.len() as int) =~= s.subrange(off + i, s.len() as int));
}

/// A candidate position of `s + x` that lies in `s` is a candidate position of `s`.
pub proof fn lemma_candidate_prefix(s: Seq<u8>, x: Seq<u8>, needle: Seq<u8>, i: int)
    requires
        0 <= i <= s.len(),
        is_candidate(s + x, needle, i),
    ensures
        is_candidate(s, needle, i),
{
    let sx = s + x;
    let a = sx.subrange(i, sx.len() as int);
    let b = s.subrange(i, s.len() as int);
    assert(b =~= a.subrange(0, b.len() as int));
    assert(needle.subrange(0, b.len() as int) =~= needle.subrange(0, a.len() as int).subrange(
        0,
        b.len() as int,
    ));
}

/// `first_candidate` finds the first candidate position at or after `i`.
pub proof fn lemma_first_candidate(s: Seq<u8>, needle: Seq<u8>, i: int)
    requires
        0 <= i <= s.len(),
    ensures
        i <= first_candidate(s, needle, i) <= s.len(),
        is_candidate(s, needle, first_candidate(s, needle, i)),
        forall|j: int| i <= j < first_candidate(s, needle, i) ==> !#[trigger] is_candidate(s, needle, j),
    decreases s.len() - i,
{
    if i >= s.len() {
        assert(s.subrange(s.len() as int, s.len() as int) =~= needle.subrange(0, 0));
    } else if !is_candidate(s, needle, i) {
        lemma_first_candidate(s, needle, i + 1);
    }
}

/// `carry_of` meets `is_carry`.
pub proof fn lemma_carry_of(s: Seq<u8>, needle: Seq<u8>)
    requires
        needle.len() >= 1,
    ensures
        is_carry(s, needle, carry_of(s, needle)),
{
    let start = if s.len() + 1 > needle.len() {
        s.len() + 1 - needle.len()
    } else {
        0
    };
    lemma_first_candidate(s, needle, start);
}

/// At most one sequence meets `is_carry`.
pub proof fn lemma_carry_unique(s: Seq<u8>, needle: Seq<u8>, c: Seq<u8>, d: Seq<u8>)
    requires
        is_carry(s, needle, c),
        is_carry(s, needle, d),
    ensures
        c == d,
{
    assert(is_candidate(s, needle, s.len() - c.len()));
    assert(is_candidate(s, needle, s.len() - d.len()));
}

/// The carry of a sequence is `carry_of` of it.
pub proof fn lemma_carry_is_carry_of(s: Seq<u8>, needle: Seq<u8>, c: Seq<u8>)
    requires
        needle.len() >= 1,
        is_carry(s, needle, c),
    ensures
        c == carry_of(s, needle),
{
    lemma_carry_of(s, needle);
    lemma_carry_unique(s, needle, c, carry_of(s, needle));
}

/// Extending `s` by `x`: the carry of `s + x` is the carry of `c + x`, where
/// `c` is the carry of `s`.
pub proof fn lemma_carry_extend(s: Seq<u8>, x: Seq<u8>, needle: Seq<u8>, c: Seq<u8>, d: Seq<u8>)
    requires
        needle.len() >= 1,
        is_carry(s, needle, c),
        is_carry(c + x, needle, d),
    ensures
        is_carry(s + x, needle, d),
{
    let sx = s + x;
    let w = c + x;
    let off = s.len() - c.len();
    assert(w =~= sx.subrange(off, sx.len() as int));
    assert(d =~= sx.subrange(sx.len() - d.len(), sx.len() as int));
    assert forall|i: int|
        0 <= i && sx.len() - needle.len() < i && i < sx.len() - d.len() implies !#[trigger] is_candidate(
        sx,
        needle,
        i,
    ) by {
        if i >= off {
            lemma_candidate_shift(sx, needle, off, i - off);
            assert(!is_candidate(w, needle, i - off));
        } else if is_candidate(sx, needle, i) {
            lemma_candidate_prefix(s, x, needle, i);
        }
    }
}

/// Extending `s` by `x`: the new occurrences are those of `c + x`, where `c`
/// is the carry of `s`.
pub proof fn lemma_count_extend(s: Seq<u8>, x: Seq<u8>, needle: Seq<u8>, c: Seq<u8>)
    requires
        needle.len() >= 1,
        is_carry(s, needle, c),
    ensures
        occurrences(s + x, needle) == occurrences(s, needle) + occurrences(c + x, needle),
{
    let sx = s + x;
    let w = c + x;
    let off = s.len() - c.len();
    assert(w =~= sx.subrange(off, sx.len() as int));
    lemma_count_shift(sx, needle, off, w.len() as int);
    assert forall|i: int| 0 <= i < off implies occurs_at(sx, needle, i) == occurs_at(
        s,
        needle,
        i,
    ) by {
        if i + needle.len() <= s.len() {
            assert(sx.subrange(i, i + needle.len()) =~= s.subrange(i, i + needle.len()));
        } else if occurs_at(sx, needle, i) {
            let m = s.len() - i;
            assert(s.subrange(i, s.len() as int) =~= sx.subrange(i, i + needle.len()).subrange(
                0,
                m,
            ));
            assert(is_candidate(s, needle, i));
        }
    }
    lemma_count_same(sx, s, needle, off);
    lemma_count_flat(s, needle, off, s.len() as int);
}

/// Counting the bytes equal to `b` gives the count of the one-byte needle
/// `b`: counting bytes for a one-byte needle agrees with the general search.
pub proof fn lemma_single_byte(s: Seq<u8>, b: u8)
    ensures
        byte_count(s, b) == occurrences(s, seq![b]),
{
    lemma_single_byte_prefix(s, b, s.len() as int);
    assert(s.subrange(0, s.len() as int) =~= s);
}

proof fn lemma_single_byte_prefix(s: Seq<u8>, b: u8, k: int)
    requires
        0 <= k <= s.len(),
    ensures
        byte_count(s.subrange(0, k), b) == count_before(s, seq![b], k),
    decreases k,
{
    if k > 0 {
        lemma_single_byte_prefix(s, b, k - 1);
        assert(s.subrange(0, k).drop_last() =~= s.subrange(0, k - 1));
        if s[k - 1] == b {
            assert(s.subrange(k - 1, k) =~= seq![b]);
        } else {
            assert(s.subrange(k - 1, k)[0] != seq![b][0]);
        }
    }
}

/// Counting below `j` needs only the first `m` bytes of `s` when every
/// occurrence below `j` fits in them.
pub proof fn lemma_count_window(s: Seq<u8>, needle: Seq<u8>, m: int, j: int)
    requires
        0 <= j,
        0 <= m <= s.len(),
        j + needle.len() - 1 <= m || m == s.len(),
    ensures
        count_before(s, needle, j) == count_before(s.subrange(0, m), needle, j),
{
    let v = s.subrange(0, m);
    if m == s.len() {
        assert(v =~= s);
    }
    assert forall|i: int| 0 <= i < j implies occurs_at(s, needle, i) == occurs_at(v, needle, i) by {
        if i + needle.len() <= m {
            assert(s.subrange(i, i + needle.len()) =~= v.subrange(i, i + needle.len()));
        }
    }
    lemma_count_same(s, v, needle, j);
}

/// The first candidate position of the last bytes of `s` gives the carry of
/// `s`, when those bytes are all of `s` or one fewer than `needle` has.
pub proof fn lemma_tail_carry(s: Seq<u8>, needle: Seq<u8>, l: int, j: int)
    requires
        needle.len() >= 1,
        0 <= l <= s.len(),
        s.len() - l < needle.len(),
        l == 0 || s.len() - l == needle.len() - 1,
        0 <= j <= s.len() - l,
        is_candidate(s.subrange(l, s.len() as int), needle, j),
        forall|i: int| 0 <= i < j ==> !#[trigger] is_candidate(s.subrange(l, s.len() as int), needle, i),
    ensures
        is_carry(s, needle, s.subrange(l + j, s.len() as int)),
{
    let d = s.subrange(l + j, s.len() as int);
    lemma_candidate_shift(s, needle, l, j);
    assert(d =~= s.subrange(s.len() - d.len(), s.len() as int));
    assert forall|i: int|
        0 <= i && s.len() - needle.len() < i && i < s.len() - d.len() implies !#[trigger] is_candidate(
        s,
        needle,
        i,
    ) by {
        lemma_candidate_shift(s, needle, l, i - l);
        assert(!is_candidate(s.subrange(l, s.len() as int), needle, i - l));
    }
}

} // verus!

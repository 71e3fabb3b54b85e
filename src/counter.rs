//! The streaming counter: it is fed a byte stream chunk by chunk and keeps
//! the count of needle occurrences in all it has seen, holding back only the
//! suffix that may still grow into an occurrence.

use vstd::prelude::*;
use vstd::slice::slice_to_vec;

use crate::occurrences::{carry_of, is_carry, occurrences};
use crate::occurrences::{
    lemma_carry_extend, lemma_carry_is_carry_of, lemma_carry_of, lemma_count_all, lemma_count_extend,
    lemma_count_shift, lemma_count_window, lemma_single_byte, lemma_tail_carry,
};
use crate::search::{count_matches, first_possible_prefix};

verus! {

/// Counts the occurrences of a fixed needle in a stream fed to it in chunks.
pub struct NeedleCounter {
    /// The pattern searched for; never empty.
    needle: Vec<u8>,
    /// The occurrences found so far.
    count: usize,
    /// The longest suffix of the stream, shorter than the needle, that is a
    /// prefix of the needle.
    carry: Vec<u8>,
    /// Everything fed so far.
    seen: Ghost<Seq<u8>>,
}

impl NeedleCounter {
    /// The needle.
    pub closed spec fn needle(&self) -> Seq<u8> {
        self.needle@
    }

    /// The whole stream fed so far.
    pub closed spec fn seen(&self) -> Seq<u8> {
        self.seen@
    }

    /// The bytes held back for the next chunk.
    pub closed spec fn carry(&self) -> Seq<u8> {
        self.carry@
    }

    /// The count reported.
    pub closed spec fn total(&self) -> nat {
        self.count as nat
    }

    /// The needle is not empty, the count is that of all the stream seen, and
    /// the carry is the longest suffix of the stream, shorter than the needle,
    /// that is a prefix of it.
    pub open spec fn wf(&self) -> bool {
        &&& self.needle().len() >= 1
        &&& self.total() == occurrences(self.seen(), self.needle())
        &&& is_carry(self.seen(), self.needle(), self.carry())
    }

    /// A counter for `needle` that has seen nothing yet.
    pub fn new(needle: &[u8]) -> (r: Self)
        requires
            needle@.len() >= 1,
        ensures
            r.wf(),
            r.needle() == needle@,
            r.seen() == Seq::<u8>::empty(),
            r.total() == 0,
            r.carry() == Seq::<u8>::empty(),
    {
        let r = NeedleCounter {
            needle: slice_to_vec(needle),
            count: 0,
            carry: Vec::new(),
            seen: Ghost(Seq::empty()),
        };
        assert(r.carry@ =~= r.seen@.subrange(0, 0));
        assert(r.needle@.subrange(0, 0) =~= r.carry@);
        r
    }

    /// A counter for `needle`, or `None` when `needle` is empty.
    pub fn try_new(needle: &[u8]) -> (r: Option<Self>)
        ensures
            r is None <==> needle@.len() == 0,
            r matches Some(c) ==> c.wf() && c.needle() == needle@ && c.seen() == Seq::<u8>::empty()
                && c.total() == 0,
    {
        if needle.len() == 0 {
            None
        } else {
            Some(NeedleCounter::new(needle))
        }
    }

    /// The number of occurrences of the needle in all the stream fed so far.
    pub fn count(&self) -> (r: usize)
        ensures
            r == self.total(),
    {
        self.count
    }

    /// Feeds the next chunk of the stream. The occurrences added are those
    /// of the carry followed by the chunk: each occurrence of the needle in
    /// the stream is counted once, whatever the chunk boundaries. The new
    /// carry is that of the carry followed by the chunk, and stays shorter
    /// than the needle.
    pub fn feed(&mut self, chunk: &[u8])
        requires
            old(self).wf(),
            old(self).total() + chunk@.len() <= usize::MAX,
        ensures
            final(self).wf(),
            final(self).needle() == old(self).needle(),
            final(self).seen() == old(self).seen() + chunk@,
            final(self).total() == occurrences(final(self).seen(), final(self).needle()),
            final(self).total() == old(self).total() + occurrences(
                old(self).carry() + chunk@,
                old(self).needle(),
            ),
            final(self).carry() == carry_of(old(self).carry() + chunk@, old(self).needle()),
            final(self).carry().len() < final(self).needle().len(),
            chunk@.len() == 0 ==> final(self).total() == old(self).total() && final(self).carry()
                == old(self).carry(),
    {
        let ghost s0 = self.seen@;
        let ghost c0 = self.carry@;
        let ghost nd = self.needle@;
        let ghost w = c0 + chunk@;
        proof {
            lemma_count_extend(s0, chunk@, nd, c0);
        }
        if chunk.len() == 0 {
            proof {
                assert(s0 + chunk@ =~= s0);
                assert(w =~= c0);
                assert(c0 =~= c0.subrange(0, c0.len() as int));
                lemma_carry_is_carry_of(w, nd, c0);
                lemma_count_all(w, nd, w.len() as int);
            }
            return;
        }
        let n = self.needle.len();
        if n == 1 {
            let b = self.needle[0];
            let found = bytecount::count(chunk, b);
            proof {
                assert(w =~= chunk@);
                assert(nd =~= seq![b]);
                lemma_single_byte(chunk@, b);
                lemma_count_all(w, nd, w.len() as int);
                assert(w.subrange(w.len() as int, w.len() as int) =~= c0);
                assert(nd.subrange(0, 0) =~= c0);
                assert(is_carry(w, nd, c0));
                lemma_carry_is_carry_of(w, nd, c0);
                lemma_carry_extend(s0, chunk@, nd, c0, c0);
            }
            self.count = self.count + found;
            self.seen = Ghost(s0 + chunk@);
            return;
        }
        let c = self.carry.len();
        let k: usize = if chunk.len() < n - 1 {
            chunk.len()
        } else {
            n - 1
        };
        // The carry followed by the first bytes of the chunk: every occurrence
        // that starts in the carry ends in it.
        self.carry.extend_from_slice(&chunk[0..k]);
        proof {
            assert(self.carry@ =~= w.subrange(0, (c + k) as int));
        }
        let head = count_matches(self.carry.as_slice(), self.needle.as_slice(), c);
        let body = count_matches(chunk, self.needle.as_slice(), chunk.len());
        proof {
            lemma_count_window(w, nd, (c + k) as int, c as int);
            assert(w.subrange(c as int, w.len() as int) =~= chunk@);
            lemma_count_shift(w, nd, c as int, chunk@.len() as int);
            lemma_count_all(w, nd, w.len() as int);
        }
        self.count = self.count + head + body;
        let new_carry = if chunk.len() < n {
            let l: usize = if self.carry.len() > n - 1 {
                self.carry.len() - (n - 1)
            } else {
                0
            };
            let j = first_possible_prefix(self.needle.as_slice(), &self.carry[l..self.carry.len()]);
            proof {
                assert(self.carry@ =~= w);
                lemma_tail_carry(w, nd, l as int, j as int);
            }
            slice_to_vec(&self.carry[l + j..self.carry.len()])
        } else {
            let l: usize = chunk.len() - (n - 1);
            let j = first_possible_prefix(self.needle.as_slice(), &chunk[l..chunk.len()]);
            proof {
                assert(chunk@.subrange(l as int, chunk@.len() as int) =~= w.subrange(
                    (c + l) as int,
                    w.len() as int,
                ));
                lemma_tail_carry(w, nd, (c + l) as int, j as int);
                assert(chunk@.subrange((l + j) as int, chunk@.len() as int) =~= w.subrange(
                    (c + l + j) as int,
                    w.len() as int,
                ));
            }
            slice_to_vec(&chunk[l + j..chunk.len()])
        };
        proof {
            lemma_carry_is_carry_of(w, nd, new_carry@);
            lemma_carry_extend(s0, chunk@, nd, c0, new_carry@);
        }
        self.carry = new_carry;
        self.seen = Ghost(s0 + chunk@);
    }

    /// The number of bytes held back for the next chunk.
    pub fn carry_len(&self) -> (r: usize)
        ensures
            r == self.carry().len(),
    {
        self.carry.len()
    }
}

/// The count and the carry of a fresh counter for `needle` after it is fed
/// `chunks` in order, each step as `NeedleCounter::feed` states it: the count
/// grows by the occurrences in the carry followed by the chunk, and the carry
/// becomes that of the carry followed by the chunk.
pub open spec fn fed(needle: Seq<u8>, chunks: Seq<Seq<u8>>) -> (nat, Seq<u8>)
    decreases chunks.len(),
{
    if chunks.len() == 0 {
        (0, Seq::empty())
    } else {
        let before = fed(needle, chunks.drop_last());
        let window = before.1 + chunks.last();
        (before.0 + occurrences(window, needle), carry_of(window, needle))
    }
}

/// However a haystack is cut into chunks (one chunk, one byte per chunk, or
/// any other way), feeding them in order ends with the count of every
/// position of the haystack at which the needle occurs, and with a carry
/// shorter than the needle.
pub proof fn lemma_chunking_invariant(needle: Seq<u8>, chunks: Seq<Seq<u8>>, haystack: Seq<u8>)
    requires
        needle.len() >= 1,
        haystack == chunks.flatten(),
    ensures
        fed(needle, chunks).0 == occurrences(haystack, needle),
        fed(needle, chunks).1 == carry_of(haystack, needle),
        fed(needle, chunks).1.len() < needle.len(),
    decreases chunks.len(),
{
    chunks.lemma_flatten_and_flatten_alt_are_equivalent();
    if chunks.len() == 0 {
        assert(haystack =~= Seq::<u8>::empty());
        assert(Seq::<u8>::empty().subrange(0, 0) =~= Seq::<u8>::empty());
        assert(needle.subrange(0, 0) =~= Seq::<u8>::empty());
        lemma_carry_is_carry_of(haystack, needle, Seq::empty());
    } else {
        let rest = chunks.drop_last();
        let x = chunks.last();
        rest.lemma_flatten_and_flatten_alt_are_equivalent();
        lemma_chunking_invariant(needle, rest, rest.flatten());
        let c = fed(needle, rest).1;
        lemma_carry_of(rest.flatten(), needle);
        lemma_count_extend(rest.flatten(), x, needle, c);
        lemma_carry_of(c + x, needle);
        lemma_carry_extend(rest.flatten(), x, needle, c, carry_of(c + x, needle));
        lemma_carry_is_carry_of(haystack, needle, carry_of(c + x, needle));
    }
}

} // verus!

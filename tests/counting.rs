use freq::search::count_matches;
use freq::{first_possible_prefix, NeedleCounter};

/// Every position at which `needle` occurs in `haystack`, counted directly.
fn naive(needle: &[u8], haystack: &[u8]) -> usize {
    if needle.len() > haystack.len() {
        return 0;
    }
    (0..=haystack.len() - needle.len())
        .filter(|&i| &haystack[i..i + needle.len()] == needle)
        .count()
}

fn count_in_chunks(needle: &[u8], haystack: &[u8], chunk_size: usize) -> usize {
    let mut counter = NeedleCounter::new(needle);
    for chunk in haystack.chunks(chunk_size) {
        counter.feed(chunk);
        assert!(counter.carry_len() < needle.len());
    }
    counter.count()
}

fn count_once(needle: &[u8], haystack: &[u8]) -> usize {
    let mut counter = NeedleCounter::new(needle);
    counter.feed(haystack);
    counter.count()
}

#[test]
fn overlapping_aba() {
    assert_eq!(count_once(b"aba", b"ababa"), 2);
    for size in 1..=5 {
        assert_eq!(count_in_chunks(b"aba", b"ababa", size), 2);
    }
}

#[test]
fn overlapping_aa() {
    assert_eq!(count_once(b"aa", b"aaaa"), 3);
    for size in 1..=4 {
        assert_eq!(count_in_chunks(b"aa", b"aaaa", size), 3);
    }
}

#[test]
fn single_byte_banana() {
    assert_eq!(count_once(b"a", b"banana"), 3);
    assert_eq!(count_matches(b"banana", b"a", 6), 3);
    for size in 1..=6 {
        assert_eq!(count_in_chunks(b"a", b"banana", size), 3);
    }
}

#[test]
fn single_byte_leaves_no_carry() {
    let mut counter = NeedleCounter::new(b"x");
    counter.feed(b"axbxx");
    assert_eq!(counter.count(), 3);
    assert_eq!(counter.carry_len(), 0);
}

#[test]
fn straddling_after_need() {
    let mut counter = NeedleCounter::new(b"needle");
    counter.feed(b"hayneed");
    assert_eq!(counter.count(), 0);
    assert_eq!(counter.carry_len(), 4);
    counter.feed(b"lehay");
    assert_eq!(counter.count(), 1);
}

#[test]
fn straddling_after_nee() {
    let mut counter = NeedleCounter::new(b"needle");
    counter.feed(b"haynee");
    assert_eq!(counter.carry_len(), 3);
    counter.feed(b"dlehay");
    assert_eq!(counter.count(), 1);
}

#[test]
fn incremental_totals() {
    let mut counter = NeedleCounter::new(b"needle");
    counter.feed(b"haystackneedle");
    assert_eq!(counter.count(), 1);
    counter.feed(b"haystackneedlehaystackneedle");
    assert_eq!(counter.count(), 3);
    counter.feed(b"haystackneedlehaystackneedlehaystackneedle");
    assert_eq!(counter.count(), 6);
}

#[test]
fn empty_chunk_changes_nothing() {
    let mut counter = NeedleCounter::new(b"needle");
    counter.feed(b"");
    assert_eq!(counter.count(), 0);
    assert_eq!(counter.carry_len(), 0);
    counter.feed(b"xneed");
    let carry = counter.carry_len();
    assert_eq!(carry, 4);
    counter.feed(b"");
    assert_eq!(counter.count(), 0);
    assert_eq!(counter.carry_len(), carry);
    counter.feed(b"le");
    assert_eq!(counter.count(), 1);
}

#[test]
fn needle_free_haystack_counts_nothing() {
    assert_eq!(count_once(b"needle", b"haystack without it"), 0);
    assert_eq!(count_in_chunks(b"needle", b"haystack without it", 3), 0);
    assert_eq!(count_once(b"needle", b""), 0);
}

#[test]
fn empty_needle_is_rejected() {
    assert!(NeedleCounter::try_new(b"").is_none());
    let counter = NeedleCounter::try_new(b"ab").unwrap();
    assert_eq!(counter.count(), 0);
}

#[test]
fn carry_bounded_when_needle_outgrows_chunks() {
    let needle = b"abcdefgh";
    let mut counter = NeedleCounter::new(needle);
    for (i, byte) in b"abcdefg".iter().enumerate() {
        counter.feed(&[*byte]);
        assert_eq!(counter.carry_len(), i + 1);
        assert!(counter.carry_len() < needle.len());
    }
    counter.feed(b"h");
    assert_eq!(counter.count(), 1);
    assert_eq!(counter.carry_len(), 0);
    counter.feed(b"abcdefgabcdefgh");
    assert_eq!(counter.count(), 2);
    assert!(counter.carry_len() < needle.len());
}

#[test]
fn carry_restarts_on_mismatch() {
    let mut counter = NeedleCounter::new(b"aab");
    counter.feed(b"a");
    counter.feed(b"a");
    assert_eq!(counter.carry_len(), 2);
    counter.feed(b"a");
    assert_eq!(counter.carry_len(), 2);
    counter.feed(b"b");
    assert_eq!(counter.count(), 1);
    assert_eq!(counter.carry_len(), 0);
}

#[test]
fn chunking_does_not_change_count() {
    let mut seed: u64 = 0x2545_f491_4f6c_dd1d;
    let mut next = move || {
        seed = seed.wrapping_mul(6364136223846793005).wrapping_add(1442695040888963407);
        (seed >> 33) as usize
    };
    for _ in 0..200 {
        let needle_len = 1 + next() % 6;
        let needle: Vec<u8> = (0..needle_len).map(|_| b'a' + (next() % 2) as u8).collect();
        let hay_len = next() % 60;
        let haystack: Vec<u8> = (0..hay_len).map(|_| b'a' + (next() % 2) as u8).collect();
        let expected = naive(&needle, &haystack);
        assert_eq!(count_once(&needle, &haystack), expected);
        for size in 1..=hay_len.max(1) {
            assert_eq!(count_in_chunks(&needle, &haystack, size), expected);
        }
    }
}

#[test]
fn chunking_with_any_bytes() {
    let haystack: Vec<u8> = (0..300u32).map(|i| (i * 7 % 5) as u8).collect();
    for needle in [&[0u8, 2][..], &[2, 4, 1], &[3], &[0, 2, 4, 1, 3, 0], &[9, 9]] {
        let expected = naive(needle, &haystack);
        for size in [1, 2, 3, 5, 7, 64, 300] {
            assert_eq!(count_in_chunks(needle, &haystack, size), expected);
        }
    }
}

#[test]
fn first_possible_prefix_finds_longest_candidate() {
    assert_eq!(first_possible_prefix(b"needle", b"hayneed"), 3);
    assert_eq!(first_possible_prefix(b"needle", b"xyz"), 3);
    assert_eq!(first_possible_prefix(b"needle", b""), 0);
    assert_eq!(first_possible_prefix(b"aab", b"aaa"), 1);
    assert_eq!(first_possible_prefix(b"ab", b"abab"), 2);
}

#[test]
fn count_matches_stops_at_limit() {
    assert_eq!(count_matches(b"ababa", b"aba", 5), 2);
    assert_eq!(count_matches(b"ababa", b"aba", 2), 1);
    assert_eq!(count_matches(b"ababa", b"aba", 0), 0);
    assert_eq!(count_matches(b"xxxx", b"y", 4), 0);
}

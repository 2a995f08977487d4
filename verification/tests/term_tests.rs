use quinemccluskey::bits::low_word;
use quinemccluskey::Term;

fn term(value: u32, mask: u32) -> Term {
    Term(((mask as u64) << 32) | value as u64)
}

#[test]
fn lower_and_upper_split_the_word() {
    let t = Term(0x0000_0005_0000_000a);
    assert_eq!(t.lower(), 0xa);
    assert_eq!(t.upper(), 0x5);
    assert_eq!(Term(u64::MAX).lower(), u32::MAX);
    assert_eq!(Term(u64::MAX).upper(), u32::MAX);
    assert_eq!(Term(7).upper(), 0);
}

#[test]
fn ones_counts_specified_ones() {
    assert_eq!(Term(0).ones(), 0);
    assert_eq!(Term(0b1011).ones(), 3);
    assert_eq!(term(0b1010, 0b0101).ones(), 2);
    assert_eq!(Term(0xffff_ffff).ones(), 32);
    // a one under a don't-care is not counted
    assert_eq!(term(0b11, 0b01).ones(), 1);
}

#[test]
fn rank_weighs_dont_cares_eight_times() {
    assert_eq!(Term(0).rank(), 0);
    assert_eq!(Term(0b111).rank(), 3);
    assert_eq!(term(0b1000, 0b0011).rank(), 2 * 8 + 1);
    assert_eq!(term(0, 0xffff_ffff).rank(), 32 * 8);
    assert_eq!(Term(0xffff_ffff).rank(), 32);
}

#[test]
fn includes_compares_specified_positions() {
    let t = term(0b1000, 0b0011);
    assert!(t.includes(0b1000));
    assert!(t.includes(0b1001));
    assert!(t.includes(0b1010));
    assert!(t.includes(0b1011));
    assert!(!t.includes(0b1100));
    assert!(!t.includes(0b0000));
    assert!(!t.includes(0b1_1000));
}

#[test]
fn try_join_combines_terms_that_differ_in_one_bit() {
    let joined = Term(0b1000).try_join(Term(0b1001));
    assert_eq!(joined, Some(term(0b1000, 0b0001)));
    let joined = Term(0b1001).try_join(Term(0b1000));
    assert_eq!(joined, Some(term(0b1000, 0b0001)));
    let joined = term(0b1000, 0b0001).try_join(term(0b1010, 0b0001));
    assert_eq!(joined, Some(term(0b1000, 0b0011)));
    let joined = Term(0).try_join(Term(0x8000_0000));
    assert_eq!(joined, Some(term(0, 0x8000_0000)));
}

#[test]
fn try_join_refuses_other_pairs() {
    // the same term
    assert_eq!(Term(0b1000).try_join(Term(0b1000)), None);
    // two bits differ
    assert_eq!(Term(0b1000).try_join(Term(0b1011)), None);
    // different don't-care positions
    assert_eq!(term(0b1000, 0b0001).try_join(term(0b1000, 0b0010)), None);
    assert_eq!(term(0b1000, 0b0001).try_join(Term(0b1010)), None);
}

#[test]
fn permutations_fill_in_the_dont_cares() {
    assert_eq!(Term(5).permutations(), vec![5]);
    assert_eq!(term(0b1000, 0b0011).permutations(), vec![8, 9, 10, 11]);
    assert_eq!(term(0b1010, 0b0101).permutations(), vec![10, 11, 14, 15]);
    assert_eq!(term(0, 0x8000_0001).permutations(), vec![0, 1, 0x8000_0000, 0x8000_0001]);
    assert_eq!(term(0, 0b111).permutations(), vec![0, 1, 2, 3, 4, 5, 6, 7]);
}

#[test]
fn permutations_are_the_assignments_included() {
    let t = term(0b0100_0001, 0b1010_0100);
    let all = t.permutations();
    assert_eq!(all.len(), 8);
    for m in 0u32..256 {
        assert_eq!(all.contains(&m), t.includes(m));
    }
    for pair in all.windows(2) {
        assert!(pair[0] < pair[1]);
    }
}

#[test]
fn render_writes_one_character_per_position() {
    assert_eq!(Term(0b0101).render(4), "0101");
    assert_eq!(term(0b100, 0b001).render(3), "10-");
    assert_eq!(term(0b1000, 0b0011).render(4), "10--");
    assert_eq!(term(0, 0b1111).render(4), "----");
    assert_eq!(Term(0).render(0), "");
    assert_eq!(Term(1).render(1), "1");
}

#[test]
fn render_marks_what_does_not_fit() {
    assert_eq!(Term(0b1000).render(3), "\u{2026}000");
    assert_eq!(term(0, 0b100).render(2), "\u{2026}00");
    assert_eq!(Term(1).render(0), "\u{2026}");
    assert_eq!(Term(0b111).render(3), "111");
}

#[test]
fn render_marks_a_contradiction() {
    assert_eq!(term(0b01, 0b01).render(2), "0x");
}

#[test]
fn render_pads_beyond_the_word() {
    let text = Term(0x8000_0001).render(34);
    assert_eq!(text, "0010000000000000000000000000000001");
    let full = Term(0xffff_ffff).render(32);
    assert_eq!(full, "1".repeat(32));
}

#[test]
fn terms_order_by_mask_then_value() {
    assert!(term(9, 0) < term(0, 1));
    assert!(term(3, 4) < term(5, 4));
    assert!(Term(4) < Term(8));
}

#[test]
fn low_word_sets_the_lowest_bits() {
    assert_eq!(low_word(0), 0);
    assert_eq!(low_word(1), 1);
    assert_eq!(low_word(4), 0b1111);
    assert_eq!(low_word(31), 0x7fff_ffff);
    assert_eq!(low_word(32), 0xffff_ffff);
    assert_eq!(low_word(40), 0xffff_ffff);
}

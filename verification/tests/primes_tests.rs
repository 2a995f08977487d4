use quinemccluskey::combine::{combine_round, group_by_weight};
use quinemccluskey::sorted::{insert_unique, sort_dedup};
use quinemccluskey::{essential_implicants, prime_implicants, Term};

fn term(value: u32, mask: u32) -> Term {
    Term(((mask as u64) << 32) | value as u64)
}

fn minterms(values: &[u32]) -> Vec<Term> {
    values.iter().map(|&v| Term(v as u64)).collect()
}

fn example() -> Vec<Term> {
    minterms(&[0b0100, 0b1000, 0b1001, 0b1010, 0b1100, 0b1011, 0b1110, 0b1111])
}

#[test]
fn prime_implicants_of_the_four_variable_example() {
    let primes = prime_implicants(4, example());
    let expected = vec![
        term(0b1000, 0b0011), // 10--
        term(0b1010, 0b0101), // 1-1-
        term(0b1000, 0b0110), // 1--0
        term(0b0100, 0b1000), // -100
    ];
    assert_eq!(primes, expected);
    let shown: Vec<String> = primes.iter().map(|t| t.render(4)).collect();
    assert_eq!(shown, vec!["10--", "1-1-", "1--0", "-100"]);
}

#[test]
fn prime_implicants_cover_exactly_the_minterms() {
    let on = [4u32, 8, 9, 10, 11, 12, 14, 15];
    let primes = prime_implicants(4, example());
    for m in 0u32..16 {
        let covered = primes.iter().any(|p| p.includes(m));
        assert_eq!(covered, on.contains(&m), "assignment {}", m);
    }
}

#[test]
fn prime_implicants_do_not_join_with_each_other() {
    let primes = prime_implicants(4, example());
    for a in &primes {
        for b in &primes {
            assert_eq!(a.try_join(*b), None);
        }
    }
    let primes = prime_implicants(3, minterms(&[0, 1, 2, 5, 6, 7]));
    for a in &primes {
        for b in &primes {
            assert_eq!(a.try_join(*b), None);
        }
    }
}

#[test]
fn prime_implicants_are_sorted_and_unique() {
    let primes = prime_implicants(3, minterms(&[7, 6, 5, 2, 1, 0, 0, 7]));
    let expected = vec![
        term(0b000, 0b001), // 00-
        term(0b110, 0b001), // 11-
        term(0b000, 0b010), // 0-0
        term(0b101, 0b010), // 1-1
        term(0b001, 0b100), // -01
        term(0b010, 0b100), // -10
    ];
    assert_eq!(primes, expected);
}

#[test]
fn a_single_minterm_is_its_own_prime_implicant() {
    assert_eq!(prime_implicants(4, minterms(&[5])), vec![Term(5)]);
    assert_eq!(prime_implicants(0, minterms(&[0])), vec![Term(0)]);
    assert_eq!(prime_implicants(32, minterms(&[u32::MAX])), vec![Term(0xffff_ffff)]);
}

#[test]
fn no_minterm_gives_no_prime_implicant() {
    assert_eq!(prime_implicants(4, Vec::new()), Vec::<Term>::new());
}

#[test]
fn all_minterms_give_the_term_without_literals() {
    assert_eq!(prime_implicants(1, minterms(&[0, 1])), vec![term(0, 1)]);
    let all: Vec<u32> = (0..16).collect();
    assert_eq!(prime_implicants(4, minterms(&all)), vec![term(0, 0b1111)]);
}

#[test]
fn minterms_far_apart_stay_apart() {
    let primes = prime_implicants(4, minterms(&[0b0000, 0b0011, 0b1100]));
    assert_eq!(primes, vec![Term(0), Term(3), Term(12)]);
}

#[test]
fn essential_implicants_of_the_four_variable_example() {
    let primes = prime_implicants(4, example());
    let essential = essential_implicants(4, primes);
    let expected = vec![
        term(0b1000, 0b0011), // 10-- alone covers 9
        term(0b1010, 0b0101), // 1-1- alone covers 15
        term(0b0100, 0b1000), // -100 alone covers 4
    ];
    assert_eq!(essential, expected);
}

#[test]
fn a_cyclic_function_has_no_essential_implicant() {
    let primes = prime_implicants(3, minterms(&[0, 1, 2, 5, 6, 7]));
    assert_eq!(primes.len(), 6);
    assert_eq!(essential_implicants(3, primes), Vec::<Term>::new());
}

#[test]
fn essential_implicants_keep_the_order_given() {
    let given = vec![Term(9), Term(2), term(0b100, 0b001)];
    assert_eq!(essential_implicants(4, given.clone()), given);
    // 2 is covered by both, 3 only by the second
    let given = vec![Term(2), term(0b10, 0b01)];
    assert_eq!(essential_implicants(2, given), vec![term(0b10, 0b01)]);
}

#[test]
fn insert_unique_keeps_the_order_and_skips_what_is_there() {
    let mut v = vec![Term(1), Term(5), Term(9)];
    insert_unique(&mut v, Term(7));
    assert_eq!(v, vec![Term(1), Term(5), Term(7), Term(9)]);
    insert_unique(&mut v, Term(5));
    assert_eq!(v, vec![Term(1), Term(5), Term(7), Term(9)]);
    insert_unique(&mut v, Term(0));
    insert_unique(&mut v, Term(10));
    assert_eq!(v, vec![Term(0), Term(1), Term(5), Term(7), Term(9), Term(10)]);
}

#[test]
fn sort_dedup_sorts_and_removes_repeats() {
    let v = vec![Term(9), Term(1), Term(9), term(0, 1), Term(5), Term(1)];
    assert_eq!(sort_dedup(&v), vec![Term(1), Term(5), Term(9), term(0, 1)]);
    assert_eq!(sort_dedup(&Vec::new()), Vec::<Term>::new());
}

#[test]
fn group_by_weight_partitions_by_ones() {
    let groups = group_by_weight(3, &minterms(&[0, 7, 1, 2, 5, 6]));
    assert_eq!(groups.len(), 4);
    assert_eq!(groups[0], vec![Term(0)]);
    assert_eq!(groups[1], vec![Term(1), Term(2)]);
    assert_eq!(groups[2], vec![Term(5), Term(6)]);
    assert_eq!(groups[3], vec![Term(7)]);
}

#[test]
fn combine_round_joins_and_keeps_the_lonely() {
    let (next, lone) = combine_round(4, &minterms(&[0b0000, 0b0001, 0b0111, 0b1000]));
    assert_eq!(next, vec![term(0, 0b0001), term(0, 0b1000)]);
    assert_eq!(lone, vec![Term(0b0111)]);
}

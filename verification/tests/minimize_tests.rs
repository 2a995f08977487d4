use quinemccluskey::cover::{check_essential, is_covered, residual_minterms, useful_candidates};
use quinemccluskey::greedy::{best_candidate, covered_count, greedy_select, remove_covered};
use quinemccluskey::select::{exact_select, selected_terms, selection_cost, selection_covers_all};
use quinemccluskey::{
    build_expression, minimal_cover, minimize, prime_implicants, MinimizeError, Node, Term,
};

fn term(value: u32, mask: u32) -> Term {
    Term(((mask as u64) << 32) | value as u64)
}

fn not(i: u8) -> Node {
    Node::Not(Box::new(Node::Var(i)))
}

fn truth_table(node: &Node, bits: u32) -> Vec<u32> {
    (0..(1u32 << bits)).filter(|&m| node.eval(m)).collect()
}

fn primes_of(bits: usize, on: &[u32]) -> Vec<Term> {
    prime_implicants(bits, on.iter().map(|&v| Term(v as u64)).collect())
}

#[test]
fn minimize_the_four_variable_example() {
    let terms = vec![4, 8, 9, 10, 12, 11, 14, 15];
    let node = minimize(4, terms).unwrap();
    let expected = Node::Or(vec![
        Node::And(vec![not(2), Node::Var(3)]),
        Node::And(vec![Node::Var(1), Node::Var(3)]),
        Node::And(vec![not(0), not(1), Node::Var(2)]),
    ]);
    assert_eq!(node, expected);
    assert_eq!(truth_table(&node, 4), vec![4, 8, 9, 10, 11, 12, 14, 15]);
}

#[test]
fn minimize_nothing_gives_the_empty_node() {
    let node = minimize(2, Vec::new()).unwrap();
    assert_eq!(node, Node::Empty);
    assert_eq!(truth_table(&node, 2), Vec::<u32>::new());
    assert_eq!(minimize(32, Vec::new()), Ok(Node::Empty));
    assert_eq!(minimize(0, Vec::new()), Ok(Node::Empty));
}

#[test]
fn minimize_everything_gives_the_constant_true() {
    let node = minimize(1, vec![0, 1]).unwrap();
    assert_eq!(node, Node::And(Vec::new()));
    assert_eq!(truth_table(&node, 1), vec![0, 1]);
    let node = minimize(3, (0..8).collect()).unwrap();
    assert_eq!(node, Node::And(Vec::new()));
    let node = minimize(0, vec![0]).unwrap();
    assert_eq!(node, Node::And(Vec::new()));
    assert!(node.eval(0));
}

#[test]
fn minimize_rejects_too_many_variables() {
    assert_eq!(minimize(33, vec![0]), Err(MinimizeError::TooManyVariables));
    assert_eq!(minimize(33, Vec::new()), Err(MinimizeError::TooManyVariables));
    assert_eq!(minimize(usize::MAX, vec![1 << 31]), Err(MinimizeError::TooManyVariables));
}

#[test]
fn minimize_rejects_terms_out_of_range() {
    assert_eq!(minimize(3, vec![8]), Err(MinimizeError::InvalidTerms));
    assert_eq!(minimize(3, vec![0, 7, 8]), Err(MinimizeError::InvalidTerms));
    assert_eq!(minimize(0, vec![1]), Err(MinimizeError::InvalidTerms));
    assert_eq!(minimize(31, vec![1 << 31]), Err(MinimizeError::InvalidTerms));
}

#[test]
fn minimize_accepts_the_largest_term_in_range() {
    assert!(minimize(3, vec![7]).is_ok());
    let node = minimize(32, vec![u32::MAX]).unwrap();
    assert!(node.eval(u32::MAX));
    assert!(!node.eval(u32::MAX - 1));
    assert!(!node.eval(0));
    let node = minimize(32, vec![1 << 31, 0]).unwrap();
    assert!(node.eval(0));
    assert!(node.eval(1 << 31));
    assert!(!node.eval(1));
}

#[test]
fn error_messages() {
    assert_eq!(MinimizeError::TooManyVariables.message(), "too many variables");
    assert_eq!(MinimizeError::InvalidTerms.message(), "invalid terms");
}

#[test]
fn a_single_literal_stands_alone() {
    assert_eq!(minimize(1, vec![1]), Ok(Node::Var(0)));
    assert_eq!(minimize(1, vec![0]), Ok(not(0)));
    // bit 1 decides, bit 0 does not matter
    assert_eq!(minimize(2, vec![2, 3]), Ok(Node::Var(1)));
    assert_eq!(minimize(2, vec![0, 1]), Ok(not(1)));
}

#[test]
fn a_single_implicant_stands_without_disjunction() {
    assert_eq!(minimize(2, vec![3]), Ok(Node::And(vec![Node::Var(0), Node::Var(1)])));
    assert_eq!(minimize(3, vec![4, 5]), Ok(Node::And(vec![not(1), Node::Var(2)])));
}

#[test]
fn minimize_exclusive_or() {
    let node = minimize(2, vec![1, 2]).unwrap();
    let expected = Node::Or(vec![
        Node::And(vec![Node::Var(0), not(1)]),
        Node::And(vec![not(0), Node::Var(1)]),
    ]);
    assert_eq!(node, expected);
    assert_eq!(truth_table(&node, 2), vec![1, 2]);
}

#[test]
fn minimize_twice_gives_the_same_tree() {
    let terms = vec![0, 1, 2, 5, 6, 7];
    assert_eq!(minimize(3, terms.clone()), minimize(3, terms));
    let terms = vec![4, 8, 9, 10, 12, 11, 14, 15];
    assert_eq!(minimize(4, terms.clone()), minimize(4, terms));
}

#[test]
fn the_order_and_repetition_of_terms_make_no_difference_to_the_table() {
    let a = minimize(4, vec![15, 14, 11, 12, 10, 9, 8, 4, 4, 15]).unwrap();
    assert_eq!(truth_table(&a, 4), vec![4, 8, 9, 10, 11, 12, 14, 15]);
}

#[test]
fn truth_tables_match_for_every_function_of_three_variables() {
    for code in 0u32..256 {
        let on: Vec<u32> = (0..8).filter(|m| code & (1 << m) != 0).collect();
        let node = minimize(3, on.clone()).unwrap();
        assert_eq!(truth_table(&node, 3), on, "function {}", code);
    }
}

#[test]
fn covers_cannot_lose_a_term_for_any_function_of_three_variables() {
    for code in 1u32..256 {
        let on: Vec<u32> = (0..8).filter(|m| code & (1 << m) != 0).collect();
        let primes = primes_of(3, &on);
        let cover = minimal_cover(3, &primes, &on);
        for skip in 0..cover.len() {
            let left_uncovered = on.iter().any(|&m| {
                !cover.iter().enumerate().any(|(i, t)| i != skip && t.includes(m))
            });
            assert!(left_uncovered, "function {}, term {}", code, skip);
        }
    }
}

#[test]
fn the_cover_of_a_cyclic_function_has_three_terms() {
    let on = vec![0, 1, 2, 5, 6, 7];
    let primes = primes_of(3, &on);
    let cover = minimal_cover(3, &primes, &on);
    // six literals either way, and the same rank: the smaller selection word wins
    let expected = vec![
        term(0b110, 0b001), // 11-
        term(0b000, 0b010), // 0-0
        term(0b001, 0b100), // -01
    ];
    assert_eq!(cover, expected);
    let node = build_expression(3, &cover);
    assert_eq!(truth_table(&node, 3), on);
}

#[test]
fn the_cover_prefers_fewer_literals() {
    // 0,1,2,3 are one term; 3,7 needs a second one
    let on = vec![0, 1, 2, 3, 7];
    let primes = primes_of(3, &on);
    assert_eq!(primes, vec![term(0b000, 0b011), term(0b011, 0b100)]);
    assert_eq!(minimal_cover(3, &primes, &on), primes);
}

#[test]
fn exact_select_takes_the_cheapest_selection() {
    // one wide term against two narrow ones
    let cands = vec![term(0b000, 0b001), term(0b010, 0b001), term(0b000, 0b011)];
    let ms = vec![0, 1, 2, 3];
    let sel = exact_select(3, &cands, &ms);
    assert_eq!(sel, 0b100);
    assert_eq!(selected_terms(&cands, sel), vec![term(0b000, 0b011)]);
    assert_eq!(selection_cost(3, &cands, 0b100), (1, 16));
    assert_eq!(selection_cost(3, &cands, 0b011), (4, 8 + 9));
    assert_eq!(selection_cost(3, &cands, 0), (0, 0));
    assert!(selection_covers_all(&cands, 0b011, &ms));
    assert!(!selection_covers_all(&cands, 0b001, &ms));
    assert!(selection_covers_all(&cands, 0, &Vec::new()));
}

#[test]
fn exact_select_breaks_ties_by_rank_then_by_word() {
    // both cover 1 with two literals; the first has the lower rank
    let cands = vec![term(0b001, 0b100), term(0b001, 0b010), term(0b011, 0b100)];
    assert_eq!(exact_select(3, &cands, &vec![1]), 0b001);
    assert_eq!(exact_select(3, &cands, &vec![3]), 0b010);
    let cands = vec![term(0b001, 0b010), term(0b001, 0b100)];
    assert_eq!(exact_select(3, &cands, &vec![1]), 0b01);
    assert_eq!(exact_select(3, &cands, &Vec::new()), 0);
}

#[test]
fn greedy_select_takes_the_widest_first() {
    let cands = vec![Term(0), term(0b100, 0b011), term(0b000, 0b001), Term(1)];
    let ms = vec![0, 1, 4, 5, 6, 7];
    assert_eq!(covered_count(cands[1], &ms), 4);
    assert_eq!(covered_count(cands[2], &ms), 2);
    assert_eq!(best_candidate(&cands, &ms), 1);
    assert_eq!(remove_covered(&ms, cands[1]), vec![0, 1]);
    let picks = greedy_select(&cands, ms);
    assert_eq!(picks, vec![term(0b100, 0b011), term(0b000, 0b001)]);
    assert_eq!(greedy_select(&cands, Vec::new()), Vec::<Term>::new());
}

#[test]
fn greedy_select_breaks_ties_by_rank_then_by_place() {
    // each covers one assignment; the lower rank wins
    let cands = vec![term(0b11, 0b100), Term(0b11), Term(0b11)];
    assert_eq!(best_candidate(&cands, &vec![3]), 1);
    assert_eq!(greedy_select(&cands, vec![3]), vec![Term(3)]);
}

#[test]
fn many_candidates_are_covered_greedily() {
    // true where one or two of five variables are set: twenty prime
    // implicants, none of them essential
    let on: Vec<u32> = (0u32..32).filter(|m| m.count_ones() == 1 || m.count_ones() == 2).collect();
    let primes = primes_of(5, &on);
    assert_eq!(primes.len(), 20);
    let residual = residual_minterms(&on, &Vec::new());
    assert_eq!(residual, on);
    assert_eq!(useful_candidates(&primes, &residual).len(), 20);
    let cover = minimal_cover(5, &primes, &on);
    for &m in &on {
        assert!(is_covered(m, &cover));
    }
    for t in &cover {
        assert!(primes.contains(t));
    }
    let node = minimize(5, on.clone()).unwrap();
    assert_eq!(truth_table(&node, 5), on);
    assert_eq!(minimize(5, on.clone()), Ok(node));
}

#[test]
fn check_essential_looks_for_an_assignment_covered_once() {
    let primes = primes_of(4, &[4, 8, 9, 10, 12, 11, 14, 15]);
    assert!(check_essential(term(0b1000, 0b0011), &primes));
    assert!(!check_essential(term(0b1000, 0b0110), &primes));
    assert!(check_essential(Term(3), &Vec::new()));
}

#[test]
fn residual_and_candidates_follow_the_essentials() {
    let on = vec![4, 8, 9, 10, 12, 11, 14, 15];
    let essential = vec![term(0b1000, 0b0011), term(0b0100, 0b1000)];
    assert_eq!(residual_minterms(&on, &essential), vec![14, 15]);
    let primes = primes_of(4, &on);
    let useful = useful_candidates(&primes, &vec![14, 15]);
    assert_eq!(useful, vec![term(0b1010, 0b0101), term(0b1000, 0b0110)]);
    assert!(is_covered(9, &essential));
    assert!(!is_covered(15, &essential));
}

#[test]
fn build_expression_of_no_term_is_empty() {
    assert_eq!(build_expression(4, &Vec::new()), Node::Empty);
}

#[test]
fn build_expression_skips_dont_cares() {
    let node = build_expression(4, &vec![term(0b1000, 0b0011), term(0b0100, 0b1000)]);
    let expected = Node::Or(vec![
        Node::And(vec![not(2), Node::Var(3)]),
        Node::And(vec![not(0), not(1), Node::Var(2)]),
    ]);
    assert_eq!(node, expected);
    // variables beyond the number given are left out
    assert_eq!(build_expression(1, &vec![Term(0b11)]), Node::Var(0));
}

#[test]
fn eval_follows_the_tree() {
    assert!(!Node::Empty.eval(0));
    assert!(!Node::Empty.eval(u32::MAX));
    assert!(Node::And(Vec::new()).eval(0));
    assert!(!Node::Or(Vec::new()).eval(0));
    assert!(Node::Var(0).eval(1));
    assert!(!Node::Var(0).eval(2));
    assert!(Node::Var(31).eval(1 << 31));
    assert!(!Node::Var(32).eval(u32::MAX));
    assert!(not(1).eval(1));
    assert!(!not(1).eval(2));
    let both = Node::And(vec![Node::Var(0), Node::Var(1)]);
    assert!(both.eval(3));
    assert!(!both.eval(1));
    let either = Node::Or(vec![Node::Var(0), Node::Var(1)]);
    assert!(either.eval(2));
    assert!(!either.eval(4));
}

#[test]
fn no_cover_is_cheaper_for_any_function_of_three_variables() {
    for code in 1u32..256 {
        let on: Vec<u32> = (0..8).filter(|m| code & (1 << m) != 0).collect();
        let primes = primes_of(3, &on);
        let cover = minimal_cover(3, &primes, &on);
        let literals = |terms: &[Term]| -> u32 {
            terms.iter().map(|t| 3 - t.upper().count_ones()).sum()
        };
        let ranks = |terms: &[Term]| -> u32 { terms.iter().map(|t| t.rank()).sum() };
        let mine = (literals(&cover), ranks(&cover));
        for pick in 0u32..(1 << primes.len()) {
            let other: Vec<Term> = primes
                .iter()
                .enumerate()
                .filter(|(i, _)| pick & (1 << i) != 0)
                .map(|(_, t)| *t)
                .collect();
            if on.iter().all(|&m| is_covered(m, &other)) {
                assert!(mine <= (literals(&other), ranks(&other)), "function {}", code);
            }
        }
    }
}

use fastest_numbers::math::expression::{BinaryOperator, UnaryOperator};
use fastest_numbers::math::optimize::optimize;
use fastest_numbers::math::uniform_cost_search::{divisors, get_lhs_candidates, get_next_states, ucs};
use fastest_numbers::syllables::counter::{value_to_words, NumberRepresentation};
use fastest_numbers::syllables::dictionary::{
    Dictionary, DictionaryConstant, DictionaryOperator, Operator,
};

fn constant(value: i32, representation: &str, number_of_syllables: i32) -> DictionaryConstant {
    DictionaryConstant {
        value,
        representation: representation.to_string(),
        number_of_syllables,
    }
}

fn operator(operator: Operator, representation: &str, number_of_syllables: i32) -> DictionaryOperator {
    DictionaryOperator {
        representation: representation.to_string(),
        operator,
        number_of_syllables,
    }
}

fn english() -> Dictionary {
    Dictionary {
        constants: vec![
            constant(0, "zero", 2),
            constant(1, "one", 1),
            constant(2, "two", 1),
            constant(3, "three", 1),
            constant(4, "four", 1),
            constant(5, "five", 1),
            constant(6, "six", 1),
            constant(7, "seven", 2),
            constant(8, "eight", 1),
            constant(9, "nine", 1),
            constant(10, "ten", 1),
            constant(20, "twenty", 2),
            constant(30, "thirty", 2),
            constant(40, "forty", 2),
            constant(50, "fifty", 2),
            constant(60, "sixty", 2),
            constant(70, "seventy", 3),
            constant(80, "eighty", 2),
            constant(90, "ninety", 2),
            constant(100, "hundred", 2),
            constant(1000, "thousand", 2),
        ],
        inverse_constants: vec![],
        operators: vec![
            operator(Operator::Unary(UnaryOperator::Squared), "squared", 1),
            operator(Operator::Unary(UnaryOperator::Cubed), "cubed", 1),
            operator(Operator::Binary(BinaryOperator::Add), "plus", 1),
            operator(Operator::Binary(BinaryOperator::Subtract), "minus", 2),
            operator(Operator::Binary(BinaryOperator::Multiply), "times", 1),
            operator(Operator::Binary(BinaryOperator::Divide), "over", 2),
            operator(Operator::Binary(BinaryOperator::Exponent), "to the", 2),
        ],
    }
}

fn state(value: i32, representation: &str, number_of_syllables: i32) -> NumberRepresentation {
    NumberRepresentation {
        value,
        representation: representation.to_owned(),
        number_of_syllables,
    }
}

#[test]
fn test_divisors() {
    let mut case1 = divisors(12);
    let mut case2 = divisors(36);
    case1.sort();
    case2.sort();
    assert_eq!(case1, vec![1, 2, 3, 4, 6, 12]);
    assert_eq!(case2, vec![1, 2, 3, 4, 6, 9, 12, 18, 36]);
}

#[test]
fn divisors_of_small_numbers() {
    assert_eq!(divisors(0), Vec::<i32>::new());
    assert_eq!(divisors(1), vec![1]);
    let mut prime = divisors(97);
    prime.sort();
    assert_eq!(prime, vec![1, 97]);
    let mut square = divisors(49);
    square.sort();
    assert_eq!(square, vec![1, 7, 49]);
}

#[test]
fn lhs_candidates_for_each_operator() {
    let dictionary = english();
    // `+`: 1..=result whose words take fewer than 2 syllables
    let add = get_lhs_candidates(&BinaryOperator::Add, 12, 2, 60, &dictionary);
    assert_eq!(add, vec![1, 2, 3, 4, 5, 6, 8, 9, 10]);
    // `-`: result..=max_lhs whose words take fewer than 3 syllables
    let subtract = get_lhs_candidates(&BinaryOperator::Subtract, 8, 3, 12, &dictionary);
    assert_eq!(subtract, vec![8, 9, 10, 11, 12]);
    // `*`: divisors up to max_lhs
    let mut multiply = get_lhs_candidates(&BinaryOperator::Multiply, 12, 1, 6, &dictionary);
    multiply.sort();
    assert_eq!(multiply, vec![1, 2, 3, 4, 6]);
    // `/`: multiples up to max_lhs
    let divide = get_lhs_candidates(&BinaryOperator::Divide, 4, 1, 20, &dictionary);
    assert_eq!(divide, vec![4, 8, 12, 16, 20]);
    // `/` with a result above max_lhs tries nothing
    let none = get_lhs_candidates(&BinaryOperator::Divide, -3, 1, -15, &dictionary);
    assert_eq!(none, Vec::<i32>::new());
    // `^`: 1..=max_lhs
    let exponent = get_lhs_candidates(&BinaryOperator::Exponent, 8, 1, 5, &dictionary);
    assert_eq!(exponent, vec![1, 2, 3, 4, 5]);
}

#[test]
fn next_states_of_twenty_seven() {
    let dictionary = english();
    let start = value_to_words(27, &dictionary).unwrap();
    assert_eq!(start, state(27, "twenty seven", 4));
    let next = get_next_states(start, &dictionary);
    assert!(next.contains(&state(27, "three cubed", 2)));
    assert!(next.contains(&state(27, "three times nine", 3)));
    assert!(next.contains(&state(27, "nine times three", 3)));
    for s in &next {
        assert_eq!(s.value, 27);
    }
    // No unary word can say 27 by a square root
    assert!(!next.iter().any(|s| s.representation.ends_with("squared")));
}

#[test]
fn next_states_keep_binary_moves_within_the_syllables() {
    let dictionary = english();
    let start = state(27, "twenty seven", 3);
    let next = get_next_states(start, &dictionary);
    for s in &next {
        if !s.representation.ends_with("cubed") {
            assert!(s.number_of_syllables <= 3);
        }
    }
}

#[test]
fn ucs_finds_the_cube() {
    let dictionary = english();
    let start = value_to_words(27, &dictionary).unwrap();
    assert_eq!(ucs(start, 2, &dictionary), Some(state(27, "three cubed", 2)));
}

#[test]
fn ucs_returns_the_start_when_it_has_the_target_syllables() {
    let dictionary = english();
    let start = value_to_words(27, &dictionary).unwrap();
    assert_eq!(ucs(start, 4, &dictionary), Some(state(27, "twenty seven", 4)));
}

#[test]
fn ucs_finds_a_product_in_three_syllables() {
    let dictionary = english();
    let start = value_to_words(27, &dictionary).unwrap();
    let found = ucs(start, 3, &dictionary).unwrap();
    assert_eq!(found.value, 27);
    assert_eq!(found.number_of_syllables, 3);
}

#[test]
fn ucs_reports_an_unreachable_target() {
    let dictionary = english();
    let start = value_to_words(27, &dictionary).unwrap();
    assert_eq!(ucs(start, 1, &dictionary), None);
}

#[test]
fn optimize_finds_squares_and_cubes() {
    let dictionary = english();
    let optimized = optimize(100, &dictionary);
    assert_eq!(optimized.inner.get(&3), Some(&state(3, "three", 1)));
    assert_eq!(optimized.inner.get(&81), Some(&state(81, "nine squared", 2)));
    assert_eq!(optimized.inner.get(&27), Some(&state(27, "three cubed", 2)));
    assert_eq!(optimized.inner.get(&64).unwrap().number_of_syllables, 2);
}

#[test]
fn optimize_covers_the_range_and_never_loses_to_plain_words() {
    let dictionary = english();
    let optimized = optimize(100, &dictionary);
    assert_eq!(optimized.inner.len(), 100);
    for n in 0..100 {
        let entry = optimized.inner.get(&n).unwrap();
        assert_eq!(entry.value, n);
        let plain = value_to_words(n, &dictionary).unwrap();
        assert!(entry.number_of_syllables <= plain.number_of_syllables);
    }
}

#[test]
fn optimize_without_a_zero_word_leaves_zero_out() {
    let mut dictionary = english();
    dictionary.constants.remove(0);
    let optimized = optimize(20, &dictionary);
    assert_eq!(optimized.inner.len(), 19);
    assert!(optimized.inner.get(&0).is_none());
}

#[test]
fn optimize_without_operators_keeps_the_plain_words() {
    let mut dictionary = english();
    dictionary.operators.clear();
    let optimized = optimize(50, &dictionary);
    for n in 0..50 {
        assert_eq!(optimized.inner.get(&n).cloned(), value_to_words(n, &dictionary));
    }
}

#[test]
fn optimize_is_never_worse_than_one_unary_word_on_plain_words() {
    let dictionary = english();
    let optimized = optimize(1000, &dictionary);
    for k in 0..32 {
        let plain = value_to_words(k, &dictionary).unwrap().number_of_syllables;
        let square = k * k;
        if square < 1000 {
            assert!(optimized.inner.get(&square).unwrap().number_of_syllables <= plain + 1);
        }
        let cube = k * k * k;
        if cube < 1000 {
            assert!(optimized.inner.get(&cube).unwrap().number_of_syllables <= plain + 1);
        }
    }
}

#[test]
fn optimize_uses_binary_words_on_plain_words() {
    let dictionary = english();
    let optimized = optimize(100, &dictionary);
    // "seventy two" takes 4 syllables; "eight times nine" takes 3
    assert!(optimized.inner.get(&72).unwrap().number_of_syllables <= 3);
    // Every product of two numbers still said with their plain words is bounded
    for l in 1..10 {
        for r in 1..10 {
            let v = l * r;
            if v < 100 {
                let bound = value_to_words(l, &dictionary).unwrap().number_of_syllables
                    + value_to_words(r, &dictionary).unwrap().number_of_syllables
                    + 1;
                if optimized.inner.get(&l).unwrap().number_of_syllables
                    == value_to_words(l, &dictionary).unwrap().number_of_syllables
                    && optimized.inner.get(&r).unwrap().number_of_syllables
                        == value_to_words(r, &dictionary).unwrap().number_of_syllables
                {
                    assert!(optimized.inner.get(&v).unwrap().number_of_syllables <= bound);
                }
            }
        }
    }
}

#[test]
fn optimize_lets_a_tie_replace_the_plain_words() {
    let dictionary = Dictionary {
        constants: vec![
            constant(0, "zero", 2),
            constant(1, "one", 1),
            constant(2, "two", 1),
            constant(3, "three", 1),
            constant(5, "five", 1),
        ],
        inverse_constants: vec![],
        operators: vec![operator(Operator::Unary(UnaryOperator::Squared), "squared", 1)],
    };
    let optimized = optimize(10, &dictionary);
    assert_eq!(optimized.inner.len(), 10);
    assert_eq!(optimized.inner.get(&4), Some(&state(4, "two squared", 2)));
    assert_eq!(optimized.inner.get(&9), Some(&state(9, "three squared", 2)));
    assert_eq!(optimized.inner.get(&6), Some(&state(6, "five one", 2)));
}

#[test]
fn lhs_candidates_for_negative_multiples_shrink() {
    let dictionary = english();
    let divide = get_lhs_candidates(&BinaryOperator::Divide, -1000000000, 1, 0, &dictionary);
    assert_eq!(divide, vec![-1000000000, -2000000000]);
}

#[test]
fn optimize_builds_on_improved_entries() {
    let dictionary = english();
    let optimized = optimize(1000, &dictionary);
    let syllables = |n: i32| optimized.inner.get(&n).unwrap().number_of_syllables;
    // 16 is "four squared" (2 syllables), so 256 is that squared again
    assert_eq!(syllables(16), 2);
    // "four squared" replaces the plain words for 16
    assert_eq!(optimized.inner.get(&16), Some(&state(16, "four squared", 2)));
    assert_eq!(syllables(256), 3);
    // No further unary or binary step on the result says a value in fewer syllables
    for k in 0..1000 {
        if k * k < 1000 {
            assert!(syllables(k * k) <= syllables(k) + 1);
        }
        if k * k * k < 1000 {
            assert!(syllables(k * k * k) <= syllables(k) + 1);
        }
    }
    for l in 1..100 {
        for r in 1..100 {
            if l + r < 1000 {
                assert!(syllables(l + r) <= syllables(l) + syllables(r) + 1);
            }
            if l * r < 1000 {
                assert!(syllables(l * r) <= syllables(l) + syllables(r) + 1);
            }
            if l - r >= 0 {
                assert!(syllables(l - r) <= syllables(l) + syllables(r) + 2);
            }
        }
    }
}

#[test]
fn optimize_is_as_short_as_any_derivation() {
    let dictionary = english();
    let check: i32 = 200;
    let optimized = optimize(check, &dictionary);
    // The fewest syllables over all ways built from the plain words by operator steps that
    // stay within the range
    let mut best: Vec<i32> = (0..check)
        .map(|n| value_to_words(n, &dictionary).unwrap().number_of_syllables)
        .collect();
    let in_range = |v: i64| v >= 0 && v < check as i64;
    let mut changed = true;
    while changed {
        changed = false;
        for k in 0..check as i64 {
            for (v, word) in [(k * k, 1), (k * k * k, 1)] {
                if in_range(v) && best[k as usize] + word < best[v as usize] {
                    best[v as usize] = best[k as usize] + word;
                    changed = true;
                }
            }
        }
        for l in 0..check as i64 {
            for r in 0..check as i64 {
                let mut results: Vec<(i64, i32)> = vec![(l + r, 1), (l - r, 2), (l * r, 1)];
                if r != 0 && l % r == 0 {
                    results.push((l / r, 2));
                }
                if r < 32 {
                    if let Some(p) = l.checked_pow(r as u32) {
                        results.push((p, 2));
                    }
                }
                for (v, word) in results {
                    let cost = best[l as usize] + best[r as usize] + word;
                    if in_range(v) && cost < best[v as usize] {
                        best[v as usize] = cost;
                        changed = true;
                    }
                }
            }
        }
    }
    for n in 0..check {
        assert_eq!(optimized.inner.get(&n).unwrap().number_of_syllables, best[n as usize]);
    }
}

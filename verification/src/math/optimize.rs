// Optimize a given expression (aka the hard part of this program!)
use vstd::prelude::*;
use vstd::std_specs::iter::IteratorSpec;
use std::collections::HashMap;

use crate::math::expression::{
    law_commutative_operators, ArithmeticErrorView, BinaryOperator, Number, UnaryOperator,
};
use crate::math::export::OptimizedResult;
use crate::syllables::counter::{spec_value_to_words, value_to_words, words_defined, NumberRepresentation};
use crate::syllables::dictionary::{
    find_constant, find_operator, lemma_find_constant_value, lemma_find_operator_in, Dictionary,
    DictionaryConstant, DictionaryOperator, Operator,
};

verus! {

broadcast use vstd::std_specs::hash::group_hash_axioms;

// Makes program output as silly as possible
const SILLY_MODE: bool = true;

/// The largest syllable count that the search works with: three of them still add up
/// within the `i32` range.
pub open spec fn syllable_ceiling() -> int {
    715827882
}

/// A syllable count that the search can add up without overflow.
pub open spec fn syllables_in_range(s: int) -> bool {
    0 <= s <= syllable_ceiling()
}

/// Every entry of `m` has a syllable count that the search can add up.
pub open spec fn solutions_in_range(m: Map<Number, NumberRepresentation>) -> bool {
    forall|k: Number| #[trigger] m.contains_key(k) ==> syllables_in_range(
        m[k].number_of_syllables as int,
    )
}

/// `s` with `x` pushed contains what `s` contains and `x`.
pub proof fn lemma_push_contains<T>(s: Seq<T>, x: T)
    ensures
        forall|y: T| #[trigger] s.push(x).contains(y) <==> (s.contains(y) || y == x),
{
    assert forall|y: T| #[trigger] s.push(x).contains(y) implies (s.contains(y) || y == x) by {
        let i = choose|i: int| 0 <= i < s.push(x).len() && s.push(x)[i] == y;
        if i < s.len() {
            assert(s[i] == y);
        }
    }
    assert forall|y: T| (s.contains(y) || y == x) implies #[trigger] s.push(x).contains(y) by {
        if y == x {
            assert(s.push(x)[s.len() as int] == y);
        } else {
            let i = choose|i: int| 0 <= i < s.len() && s[i] == y;
            assert(s.push(x)[i] == y);
        }
    }
}

/// Pushing a new element keeps a sequence free of duplicates.
pub proof fn lemma_push_no_duplicates<T>(s: Seq<T>, x: T)
    requires
        s.no_duplicates(),
        !s.contains(x),
    ensures
        s.push(x).no_duplicates(),
{
    assert forall|i: int, j: int| 0 <= i < j < s.push(x).len() implies s.push(x)[i] != s.push(x)[j] by {
        if j == s.len() {
            assert(s.contains(s[i]));
        }
    }
}

/// An element of a sequence without duplicates is not among the ones before it.
pub proof fn lemma_not_in_prefix<T>(s: Seq<T>, j: int)
    requires
        s.no_duplicates(),
        0 <= j < s.len(),
    ensures
        !s.take(j).contains(s[j]),
{
    if s.take(j).contains(s[j]) {
        let i = choose|i: int| 0 <= i < j && s.take(j)[i] == s[j];
        assert(s[i] == s[j]);
    }
}

/// An operator word that names an operator of the dictionary is found for it.
pub proof fn lemma_find_operator_present(ops: Seq<DictionaryOperator>, i: int)
    requires
        0 <= i < ops.len(),
    ensures
        find_operator(ops, ops[i].operator).is_some(),
    decreases ops.len(),
{
    if ops[0].operator != ops[i].operator {
        assert(ops.drop_first()[i - 1] == ops[i]);
        lemma_find_operator_present(ops.drop_first(), i - 1);
    }
}

/// Whether a new way to say `new_value` with `new_cost` syllables replaces the one known:
/// only values already known are updated, and (in silly mode) ties replace too.
fn should_update(
    best_solutions: &HashMap<Number, NumberRepresentation>,
    new_value: Number,
    new_cost: Number,
) -> (r: bool)
    ensures
        r == (best_solutions@.contains_key(new_value) && new_cost
            <= best_solutions@[new_value].number_of_syllables),
{
    match best_solutions.get(&new_value) {
        Some(existing) => {
            if SILLY_MODE {
                new_cost <= existing.number_of_syllables
            } else {
                new_cost < existing.number_of_syllables
            }
        },
        None => false,
    }
}

/// The known values whose syllable count is below `limit`.
fn values_below(best_solutions: &HashMap<Number, NumberRepresentation>, limit: Number) -> (r: Vec<
    Number,
>)
    ensures
        forall|x: Number| #[trigger]
            r@.contains(x) <==> (best_solutions@.contains_key(x)
                && best_solutions@[x].number_of_syllables < limit),
        r@.no_duplicates(),
{
    let mut result: Vec<Number> = Vec::new();
    let entries = best_solutions.iter();
    let ghost s0 = entries.remaining();
    let ghost mut seen: Set<Number> = Set::empty();
    for kv in it: entries
        invariant
            it.seq() == s0,
            forall|j: int| 0 <= j < s0.len() ==> best_solutions@.contains_key(*s0[j].0) && *s0[j].1
                == best_solutions@[*s0[j].0],
            forall|j: int| 0 <= j < it.index() ==> #[trigger] seen.contains(*s0[j].0),
            forall|x: Number| #[trigger]
                result@.contains(x) <==> (seen.contains(x) && best_solutions@.contains_key(x)
                    && best_solutions@[x].number_of_syllables < limit),
            s0.no_duplicates(),
            forall|x: Number| #[trigger]
                seen.contains(x) ==> exists|j: int| 0 <= j < it.index() && *s0[j].0 == x,
            result@.no_duplicates(),
    {
        let ghost j = it.index();
        assert(it.seq()[j] == kv);
        let (k, v) = kv;
        proof {
            if seen.contains(*k) {
                let i = choose|i: int| 0 <= i < j && *s0[i].0 == *k;
                assert(s0[i] == s0[j]);
            }
            lemma_push_contains(result@, *k);
            if !result@.contains(*k) {
                lemma_push_no_duplicates(result@, *k);
            }
            seen = seen.insert(*k);
        }
        if v.number_of_syllables < limit {
            result.push(*k);
        }
    }
    proof {
        assert forall|x: Number| best_solutions@.contains_key(x) implies seen.contains(x) by {
            assert(s0.contains((&x, &best_solutions@[x])));
            let j = choose|j: int| 0 <= j < s0.len() && s0[j] == (&x, &best_solutions@[x]);
            assert(seen.contains(*s0[j].0));
        }
    }
    result
}

/// The syllable count of the known way to say `x`.
pub open spec fn cost_of(m: Map<Number, NumberRepresentation>, x: Number) -> int {
    m[x].number_of_syllables as int
}

/// The known values `v` that a unary operator of `operator_length` syllables can turn into a
/// way to say something in fewer than `goal_length` syllables.
fn get_candidates_unary(
    best_solutions: &HashMap<Number, NumberRepresentation>,
    operator: UnaryOperator,
    goal_length: Number,
    dictionary: &Dictionary,
) -> (r: Vec<Number>)
    requires
        find_operator(dictionary.operators@, Operator::Unary(operator)).is_some(),
        syllables_in_range(
            find_operator(dictionary.operators@, Operator::Unary(operator))->Some_0.number_of_syllables as int,
        ),
        syllables_in_range(goal_length as int),
    ensures
        forall|x: Number| #[trigger]
            r@.contains(x) <==> (best_solutions@.contains_key(x) && cost_of(best_solutions@, x)
                + find_operator(dictionary.operators@, Operator::Unary(operator))->Some_0.number_of_syllables
                < goal_length),
        r@.no_duplicates(),
{
    let operator_length = match dictionary.get_from_dictionary_operator(Operator::Unary(operator)) {
        Some(op) => op.number_of_syllables,
        None => {
            proof {
                assert(false);
            }
            0
        },
    };
    // v.number_of_syllables + operator_length < goal_length
    values_below(best_solutions, goal_length - operator_length)
}

/// A pair of known values that a binary operator of `operator_length` syllables can join
/// into a way to say something in more than `min_length` and fewer than `goal_length`
/// syllables: both operands take at least one syllable and, for a commutative operator,
/// the left one takes no more syllables than the right one (and is not larger when they
/// take equally many).
pub open spec fn binary_candidate(
    m: Map<Number, NumberRepresentation>,
    operator_length: int,
    commutative: bool,
    min_length: int,
    goal_length: int,
    lhs: Number,
    rhs: Number,
) -> bool {
    &&& m.contains_key(lhs)
    &&& m.contains_key(rhs)
    &&& 1 <= cost_of(m, lhs)
    &&& 1 <= cost_of(m, rhs)
    &&& min_length < cost_of(m, lhs) + cost_of(m, rhs) + operator_length < goal_length
    &&& commutative ==> cost_of(m, lhs) <= cost_of(m, rhs)
    &&& (commutative && cost_of(m, lhs) == cost_of(m, rhs)) ==> lhs <= rhs
}

/// The known values grouped by syllable count, for the counts `c` with
/// `c + operator_length < goal_length`.
fn group_by_length(
    best_solutions: &HashMap<Number, NumberRepresentation>,
    operator_length: Number,
    goal_length: Number,
) -> (r: HashMap<Number, Vec<Number>>)
    requires
        syllables_in_range(operator_length as int),
        solutions_in_range(best_solutions@),
    ensures
        forall|len: Number| #[trigger]
            r@.contains_key(len) ==> forall|x: Number| #[trigger]
                r@[len]@.contains(x) <==> (best_solutions@.contains_key(x) && cost_of(
                    best_solutions@,
                    x,
                ) == len && len + operator_length < goal_length),
        forall|x: Number|
            #![trigger best_solutions@[x]]
            best_solutions@.contains_key(x) && best_solutions@[x].number_of_syllables + operator_length
                < goal_length ==> r@.contains_key(best_solutions@[x].number_of_syllables),
        forall|len: Number| #[trigger] r@.contains_key(len) ==> r@[len]@.no_duplicates(),
{
    let mut by_length: HashMap<Number, Vec<Number>> = HashMap::new();
    let entries = best_solutions.iter();
    let ghost s0 = entries.remaining();
    let ghost mut seen: Set<Number> = Set::empty();
    let ghost m = best_solutions@;
    for kv in it: entries
        invariant
            it.seq() == s0,
            m == best_solutions@,
            solutions_in_range(m),
            syllables_in_range(operator_length as int),
            forall|j: int| 0 <= j < s0.len() ==> m.contains_key(*s0[j].0) && *s0[j].1 == m[*s0[j].0],
            forall|j: int| 0 <= j < it.index() ==> #[trigger] seen.contains(*s0[j].0),
            forall|len: Number| #[trigger]
                by_length@.contains_key(len) ==> forall|x: Number| #[trigger]
                    by_length@[len]@.contains(x) <==> (seen.contains(x) && m.contains_key(x)
                        && cost_of(m, x) == len && len + operator_length < goal_length),
            forall|x: Number|
                #![trigger m[x]]
                seen.contains(x) && m.contains_key(x) && m[x].number_of_syllables + operator_length
                    < goal_length ==> by_length@.contains_key(m[x].number_of_syllables),
            s0.no_duplicates(),
            forall|x: Number| #[trigger]
                seen.contains(x) ==> exists|j: int| 0 <= j < it.index() && *s0[j].0 == x,
            forall|len: Number| #[trigger]
                by_length@.contains_key(len) ==> by_length@[len]@.no_duplicates(),
    {
        let ghost j = it.index();
        assert(it.seq()[j] == kv);
        let (num, representation) = kv;
        let ghost old_seen = seen;
        proof {
            if seen.contains(*num) {
                let i = choose|i: int| 0 <= i < j && *s0[i].0 == *num;
                assert(s0[i] == s0[j]);
            }
            seen = seen.insert(*num);
        }
        let new_length = representation.number_of_syllables + operator_length;
        if new_length < goal_length {
            let length = representation.number_of_syllables;
            let mut group = match by_length.remove(&length) {
                Some(g) => g,
                None => Vec::new(),
            };
            proof {
                lemma_push_contains(group@, *num);
                lemma_push_no_duplicates(group@, *num);
            }
            group.push(*num);
            by_length.insert(length, group);
        }
    }
    proof {
        assert forall|x: Number| best_solutions@.contains_key(x) implies seen.contains(x) by {
            assert(s0.contains((&x, &best_solutions@[x])));
            let j = choose|j: int| 0 <= j < s0.len() && s0[j] == (&x, &best_solutions@[x]);
            assert(seen.contains(*s0[j].0));
        }
    }
    by_length
}

/// All pairs of known values that a binary operator can join into a way to say something in
/// more than `min_length` and fewer than `goal_length` syllables (see `binary_candidate`).
/// Values of `min_length` syllables are taken as settled, so longer results are not sought.
fn get_candidates_binary(
    best_solutions: &HashMap<Number, NumberRepresentation>,
    operator: BinaryOperator,
    min_length: Number,
    goal_length: Number,
    dictionary: &Dictionary,
) -> (r: Vec<(Number, Number)>)
    requires
        find_operator(dictionary.operators@, Operator::Binary(operator)).is_some(),
        syllables_in_range(
            find_operator(dictionary.operators@, Operator::Binary(operator))->Some_0.number_of_syllables as int,
        ),
        solutions_in_range(best_solutions@),
        syllables_in_range(goal_length as int),
        syllables_in_range(min_length as int + 2),
    ensures
        forall|p: (Number, Number)| #[trigger]
            r@.contains(p) <==> binary_candidate(
                best_solutions@,
                find_operator(dictionary.operators@, Operator::Binary(operator))->Some_0.number_of_syllables as int,
                operator == BinaryOperator::Add || operator == BinaryOperator::Multiply,
                min_length as int,
                goal_length as int,
                p.0,
                p.1,
            ),
        r@.no_duplicates(),
{
    // Check syllable length, and prune any combinations that would lead to
    // a syllable length > goal.syllable_length
    let operator_length = match dictionary.get_from_dictionary_operator(Operator::Binary(operator)) {
        Some(op) => op.number_of_syllables,
        None => {
            proof {
                assert(false);
            }
            0
        },
    };
    let ghost m = best_solutions@;
    let ghost op = operator_length as int;
    let ghost comm = operator == BinaryOperator::Add || operator == BinaryOperator::Multiply;
    let ghost mn = min_length as int;
    let ghost g = goal_length as int;
    let mut result: Vec<(Number, Number)> = Vec::new();

    // Group numbers by syllable length for faster lookup
    let by_length = group_by_length(best_solutions, operator_length, goal_length);

    // Find all LHS values, where N_lhs + N_operator < N_goal
    let mut lhs_length: Number = 1;
    while lhs_length < goal_length - operator_length
        invariant
            1 <= lhs_length,
            lhs_length <= goal_length - operator_length || lhs_length == 1,
            m == best_solutions@,
            op == operator_length,
            syllables_in_range(op),
            syllables_in_range(g),
            g == goal_length,
            mn == min_length,
            comm == (operator == BinaryOperator::Add || operator == BinaryOperator::Multiply),
            solutions_in_range(m),
            forall|len: Number| #[trigger]
                by_length@.contains_key(len) ==> forall|x: Number| #[trigger]
                    by_length@[len]@.contains(x) <==> (m.contains_key(x) && cost_of(m, x) == len
                        && len + operator_length < goal_length),
            forall|x: Number|
                #![trigger m[x]]
                m.contains_key(x) && m[x].number_of_syllables + operator_length < goal_length
                    ==> by_length@.contains_key(m[x].number_of_syllables),
            forall|p: (Number, Number)| #[trigger]
                result@.contains(p) <==> (binary_candidate(m, op, comm, mn, g, p.0, p.1) && cost_of(
                    m,
                    p.0,
                ) < lhs_length),
            result@.no_duplicates(),
            forall|len: Number| #[trigger]
                by_length@.contains_key(len) ==> by_length@[len]@.no_duplicates(),
        decreases goal_length - operator_length - lhs_length,
    {
        match by_length.get(&lhs_length) {
            None => {
                assert forall|p: (Number, Number)| binary_candidate(m, op, comm, mn, g, p.0, p.1)
                    && cost_of(m, p.0) == lhs_length implies false by {
                    assert(m.contains_key(p.0) && m[p.0].number_of_syllables + operator_length
                        < goal_length);
                }
            },
            Some(lhs_candidates) => {
                // N_lhs + N_rhs + N_operator < N_goal
                //                      N_rhs < N_goal - N_operator - N_lhs
                let max_rhs_length = goal_length - operator_length - lhs_length;
                if max_rhs_length >= 1 {
                    // If an operator is commutative, we only need to check RHS >= LHS,
                    // to avoid duplicates (e.g. 5 + 2 and 2 + 5)
                    let min_rhs_length = if operator.is_commutative() {
                        lhs_length
                    } else {
                        1
                    };
                    let mut rhs_length: Number = min_rhs_length;
                    while rhs_length < max_rhs_length
                        invariant
                            1 <= lhs_length < goal_length - operator_length,
                            max_rhs_length == goal_length - operator_length - lhs_length,
                            min_rhs_length <= rhs_length,
                            min_rhs_length == (if comm { lhs_length } else { 1 }),
                            rhs_length <= max_rhs_length || rhs_length == min_rhs_length,
                            m == best_solutions@,
                            op == operator_length,
                            syllables_in_range(op),
                            syllables_in_range(g),
                            g == goal_length,
                            mn == min_length,
                            comm == (operator == BinaryOperator::Add || operator
                                == BinaryOperator::Multiply),
                            solutions_in_range(m),
                            forall|x: Number| #[trigger]
                                lhs_candidates@.contains(x) <==> (m.contains_key(x) && cost_of(m, x)
                                    == lhs_length && lhs_length + operator_length < goal_length),
                            forall|len: Number| #[trigger]
                                by_length@.contains_key(len) ==> forall|x: Number| #[trigger]
                                    by_length@[len]@.contains(x) <==> (m.contains_key(x) && cost_of(
                                        m,
                                        x,
                                    ) == len && len + operator_length < goal_length),
                            forall|x: Number|
                                #![trigger m[x]]
                                m.contains_key(x) && m[x].number_of_syllables + operator_length
                                    < goal_length ==> by_length@.contains_key(
                                    m[x].number_of_syllables,
                                ),
                            forall|p: (Number, Number)| #[trigger]
                                result@.contains(p) <==> (binary_candidate(m, op, comm, mn, g, p.0, p.1)
                                    && (cost_of(m, p.0) < lhs_length || (cost_of(m, p.0) == lhs_length
                                    && cost_of(m, p.1) < rhs_length))),
                            result@.no_duplicates(),
                            lhs_candidates@.no_duplicates(),
                            forall|len: Number| #[trigger]
                                by_length@.contains_key(len) ==> by_length@[len]@.no_duplicates(),
                        decreases max_rhs_length - rhs_length,
                    {
                        match by_length.get(&rhs_length) {
                            None => {
                                assert forall|p: (Number, Number)|
                                    binary_candidate(m, op, comm, mn, g, p.0, p.1) && cost_of(m, p.1)
                                        == rhs_length implies false by {
                                    assert(m.contains_key(p.1) && m[p.1].number_of_syllables
                                        + operator_length < goal_length);
                                }
                            },
                            Some(rhs_candidates) => {
                                let total_length = lhs_length + rhs_length + operator_length;
                                if !(total_length <= min_length || total_length >= goal_length) {
                                    let mut a: usize = 0;
                                    while a < lhs_candidates.len()
                                        invariant
                                            a <= lhs_candidates@.len(),
                                            1 <= lhs_length < goal_length - operator_length,
                                            min_rhs_length <= rhs_length < max_rhs_length,
                                            max_rhs_length == goal_length - operator_length
                                                - lhs_length,
                                            min_rhs_length == (if comm { lhs_length } else { 1 }),
                                            total_length == lhs_length + rhs_length + operator_length,
                                            min_length < total_length < goal_length,
                                            m == best_solutions@,
                                            op == operator_length,
                                            g == goal_length,
                                            mn == min_length,
                                            comm == (operator == BinaryOperator::Add || operator
                                                == BinaryOperator::Multiply),
                                            forall|x: Number| #[trigger]
                                                lhs_candidates@.contains(x) <==> (m.contains_key(x)
                                                    && cost_of(m, x) == lhs_length && lhs_length
                                                    + operator_length < goal_length),
                                            forall|x: Number| #[trigger]
                                                rhs_candidates@.contains(x) <==> (m.contains_key(x)
                                                    && cost_of(m, x) == rhs_length && rhs_length
                                                    + operator_length < goal_length),
                                            forall|p: (Number, Number)| #[trigger]
                                                result@.contains(p) <==> (binary_candidate(
                                                    m,
                                                    op,
                                                    comm,
                                                    mn,
                                                    g,
                                                    p.0,
                                                    p.1,
                                                ) && (cost_of(m, p.0) < lhs_length || (cost_of(m, p.0)
                                                    == lhs_length && cost_of(m, p.1) < rhs_length) || (
                                                cost_of(m, p.0) == lhs_length && cost_of(m, p.1)
                                                    == rhs_length && lhs_candidates@.take(
                                                    a as int,
                                                ).contains(p.0)))),
                                            result@.no_duplicates(),
                                            lhs_candidates@.no_duplicates(),
                                            rhs_candidates@.no_duplicates(),
                                        decreases lhs_candidates.len() - a,
                                    {
                                        let lhs = lhs_candidates[a];
                                        let mut b: usize = 0;
                                        while b < rhs_candidates.len()
                                            invariant
                                                a < lhs_candidates@.len(),
                                                b <= rhs_candidates@.len(),
                                                lhs == lhs_candidates@[a as int],
                                                1 <= lhs_length < goal_length - operator_length,
                                                min_rhs_length <= rhs_length < max_rhs_length,
                                                min_rhs_length == (if comm { lhs_length } else { 1 }),
                                                total_length == lhs_length + rhs_length
                                                    + operator_length,
                                                min_length < total_length < goal_length,
                                                m == best_solutions@,
                                                op == operator_length,
                                                g == goal_length,
                                                mn == min_length,
                                                comm == (operator == BinaryOperator::Add || operator
                                                    == BinaryOperator::Multiply),
                                                forall|x: Number| #[trigger]
                                                    lhs_candidates@.contains(x) <==> (m.contains_key(
                                                        x,
                                                    ) && cost_of(m, x) == lhs_length && lhs_length
                                                        + operator_length < goal_length),
                                                forall|x: Number| #[trigger]
                                                    rhs_candidates@.contains(x) <==> (m.contains_key(
                                                        x,
                                                    ) && cost_of(m, x) == rhs_length && rhs_length
                                                        + operator_length < goal_length),
                                                forall|p: (Number, Number)| #[trigger]
                                                    result@.contains(p) <==> (binary_candidate(
                                                        m,
                                                        op,
                                                        comm,
                                                        mn,
                                                        g,
                                                        p.0,
                                                        p.1,
                                                    ) && (cost_of(m, p.0) < lhs_length || (cost_of(
                                                        m,
                                                        p.0,
                                                    ) == lhs_length && cost_of(m, p.1)
                                                        < rhs_length) || (cost_of(m, p.0)
                                                        == lhs_length && cost_of(m, p.1)
                                                        == rhs_length && lhs_candidates@.take(
                                                        a as int,
                                                    ).contains(p.0)) || (p.0 == lhs && cost_of(
                                                        m,
                                                        p.1,
                                                    ) == rhs_length && rhs_candidates@.take(
                                                        b as int,
                                                    ).contains(p.1)))),
                                                result@.no_duplicates(),
                                                lhs_candidates@.no_duplicates(),
                                                rhs_candidates@.no_duplicates(),
                                            decreases rhs_candidates.len() - b,
                                        {
                                            let rhs = rhs_candidates[b];
                                            proof {
                                                assert(rhs_candidates@.take(b + 1) =~= rhs_candidates@.take(
                                                    b as int,
                                                ).push(rhs));
                                                lemma_push_contains(rhs_candidates@.take(b as int), rhs);
                                                lemma_push_contains(result@, (lhs, rhs));
                                                lemma_not_in_prefix(lhs_candidates@, a as int);
                                                lemma_not_in_prefix(rhs_candidates@, b as int);
                                                assert(lhs_candidates@.contains(lhs));
                                                assert(rhs_candidates@.contains(rhs));
                                            }
                                            // If operator is commutative and the LHS and RHS have the same amount of
                                            // syllables, only include LHS <= RHS.
                                            if !(operator.is_commutative() && lhs_length == rhs_length
                                                && lhs > rhs) {
                                                proof {
                                                    assert(!result@.contains((lhs, rhs)));
                                                    lemma_push_no_duplicates(result@, (lhs, rhs));
                                                }
                                                result.push((lhs, rhs));
                                            }
                                            b = b + 1;
                                        }
                                        proof {
                                            assert(lhs_candidates@.take(a + 1) =~= lhs_candidates@.take(
                                                a as int,
                                            ).push(lhs));
                                            lemma_push_contains(lhs_candidates@.take(a as int), lhs);
                                            assert(rhs_candidates@.take(b as int) =~= rhs_candidates@);
                                            assert forall|p: (Number, Number)| #[trigger]
                                                result@.contains(p) <==> (binary_candidate(
                                                    m,
                                                    op,
                                                    comm,
                                                    mn,
                                                    g,
                                                    p.0,
                                                    p.1,
                                                ) && (cost_of(m, p.0) < lhs_length || (cost_of(m, p.0)
                                                    == lhs_length && cost_of(m, p.1) < rhs_length) || (
                                                cost_of(m, p.0) == lhs_length && cost_of(m, p.1)
                                                    == rhs_length && lhs_candidates@.take(
                                                    a + 1,
                                                ).contains(p.0)))) by {
                                                assert(lhs_candidates@.contains(lhs));
                                                assert(lhs_candidates@.take(a + 1).contains(lhs));
                                                if p.0 == lhs && cost_of(m, p.1) == rhs_length && binary_candidate(m, op, comm, mn, g, p.0, p.1) {
                                                    assert(rhs_candidates@.contains(p.1));
                                                    assert(rhs_candidates@.take(b as int).contains(p.1));
                                                }
                                                if lhs_candidates@.take(a + 1).contains(p.0) && p.0 != lhs {
                                                    assert(lhs_candidates@.take(a as int).contains(p.0));
                                                }
                                            }
                                        }
                                        a = a + 1;
                                    }
                                    proof {
                                        assert(lhs_candidates@.take(a as int) =~= lhs_candidates@);
                                    }
                                }
                            },
                        }
                        rhs_length = rhs_length + 1;
                    }
                }
            },
        }
        lhs_length = lhs_length + 1;
    }
    result
}

/// `t` says what `a` says followed by the unary operator word `w`, and that operator turns
/// `a`'s value into `t`'s.
pub open spec fn unary_step(
    w: DictionaryOperator,
    a: (int, Seq<char>, int),
    t: (int, Seq<char>, int),
) -> bool {
    match w.operator {
        Operator::Unary(u) => {
            &&& u.spec_apply(a.0) == Ok::<int, ArithmeticErrorView>(t.0)
            &&& t.1 == a.1 + " "@ + w.representation@
            &&& t.2 == a.2 + w.number_of_syllables
        },
        _ => false,
    }
}

/// `t` says what `a` says, the binary operator word `w` and what `b` says, and that operator
/// turns the values of `a` and `b` into `t`'s.
pub open spec fn binary_step(
    w: DictionaryOperator,
    a: (int, Seq<char>, int),
    b: (int, Seq<char>, int),
    t: (int, Seq<char>, int),
) -> bool {
    match w.operator {
        Operator::Binary(o) => {
            &&& o.apply_defined(a.0, b.0)
            &&& o.spec_apply(a.0, b.0) == Ok::<int, ArithmeticErrorView>(t.0)
            &&& t.1 == a.1 + " "@ + w.representation@ + " "@ + b.1
            &&& t.2 == a.2 + b.2 + w.number_of_syllables
        },
        _ => false,
    }
}

/// Entry `k` of `trail` says a value below `check_values_up_to` with the plain number words
/// of the dictionary, or is one operator step from earlier entries of `trail`.
pub open spec fn justified(
    cs: Seq<DictionaryConstant>,
    ops: Seq<DictionaryOperator>,
    check_values_up_to: int,
    trail: Seq<(int, Seq<char>, int)>,
    k: int,
) -> bool {
    let t = trail[k];
    &&& 0 <= t.0 < check_values_up_to
    &&& {
        ||| spec_value_to_words(cs, t.0) == Some(t)
        ||| exists|i: int, j: int|
            0 <= i < ops.len() && 0 <= j < k && #[trigger] unary_step(ops[i], trail[j], t)
        ||| exists|i: int, j: int, l: int|
            0 <= i < ops.len() && 0 <= j < k && 0 <= l < k && #[trigger] binary_step(
                ops[i],
                trail[j],
                trail[l],
                t,
            )
    }
}

/// Every entry of `trail` is justified: the trail shows how each of its ways to say a number
/// is built from the plain number words by operator steps.
pub open spec fn derivation(
    cs: Seq<DictionaryConstant>,
    ops: Seq<DictionaryOperator>,
    check_values_up_to: int,
    trail: Seq<(int, Seq<char>, int)>,
) -> bool {
    forall|k: int| 0 <= k < trail.len() ==> #[trigger] justified(cs, ops, check_values_up_to, trail, k)
}

/// `t` is built from the plain number words of the dictionary by operator steps.
pub open spec fn derived(
    cs: Seq<DictionaryConstant>,
    ops: Seq<DictionaryOperator>,
    check_values_up_to: int,
    t: (int, Seq<char>, int),
) -> bool {
    exists|trail: Seq<(int, Seq<char>, int)>|
        #[trigger] derivation(cs, ops, check_values_up_to, trail) && trail.contains(t)
}

/// A derivation extended by an entry that is justified by it is still a derivation.
pub proof fn lemma_derivation_push(
    cs: Seq<DictionaryConstant>,
    ops: Seq<DictionaryOperator>,
    check_values_up_to: int,
    trail: Seq<(int, Seq<char>, int)>,
    t: (int, Seq<char>, int),
)
    requires
        derivation(cs, ops, check_values_up_to, trail),
        justified(cs, ops, check_values_up_to, trail.push(t), trail.len() as int),
    ensures
        derivation(cs, ops, check_values_up_to, trail.push(t)),
{
    let longer = trail.push(t);
    assert forall|k: int| 0 <= k < longer.len() implies #[trigger] justified(
        cs,
        ops,
        check_values_up_to,
        longer,
        k,
    ) by {
        if k < trail.len() {
            assert(justified(cs, ops, check_values_up_to, trail, k));
            let u = trail[k];
            assert(longer[k] == u);
            if spec_value_to_words(cs, u.0) != Some(u) {
                if exists|i: int, j: int|
                    0 <= i < ops.len() && 0 <= j < k && #[trigger] unary_step(ops[i], trail[j], u) {
                    let (i, j) = choose|i: int, j: int|
                        0 <= i < ops.len() && 0 <= j < k && #[trigger] unary_step(
                            ops[i],
                            trail[j],
                            u,
                        );
                    assert(longer[j] == trail[j]);
                    assert(unary_step(ops[i], longer[j], u));
                } else {
                    let (i, j, l) = choose|i: int, j: int, l: int|
                        0 <= i < ops.len() && 0 <= j < k && 0 <= l < k && #[trigger] binary_step(
                            ops[i],
                            trail[j],
                            trail[l],
                            u,
                        );
                    assert(longer[j] == trail[j]);
                    assert(longer[l] == trail[l]);
                    assert(binary_step(ops[i], longer[j], longer[l], u));
                }
            }
        }
    }
}


/// The syllable count of the plain number words for `k`.
pub open spec fn plain_syllables(cs: Seq<DictionaryConstant>, k: int) -> int {
    spec_value_to_words(cs, k)->Some_0.2
}

/// The values below `check_values_up_to` that the plain number words can say: all of them
/// from zero on, zero only when the dictionary has a word for it.
pub open spec fn plain_domain(cs: Seq<DictionaryConstant>, check_values_up_to: int) -> Set<Number> {
    Set::new(
        |k: Number| 0 <= k < check_values_up_to && spec_value_to_words(cs, k as int).is_some(),
    )
}

/// Every operator word has a syllable count that the search can add up.
pub open spec fn operators_in_range(ops: Seq<DictionaryOperator>) -> bool {
    forall|i: int| 0 <= i < ops.len() ==> syllables_in_range(#[trigger] ops[i].number_of_syllables as int)
}

/// What the search keeps true of its table `m`: it holds exactly the values of the plain
/// domain, each entry says its own key in no more syllables than the plain words do, and
/// `trail` is a derivation that holds every entry.
pub open spec fn sound_solutions(
    cs: Seq<DictionaryConstant>,
    ops: Seq<DictionaryOperator>,
    check_values_up_to: int,
    m: Map<Number, NumberRepresentation>,
    trail: Seq<(int, Seq<char>, int)>,
) -> bool {
    &&& m.dom() == plain_domain(cs, check_values_up_to)
    &&& solutions_in_range(m)
    &&& derivation(cs, ops, check_values_up_to, trail)
    &&& forall|k: Number| #[trigger]
        m.contains_key(k) ==> m[k].value == k && m[k].number_of_syllables <= plain_syllables(
            cs,
            k as int,
        ) && trail.contains(m[k]@)
}

/// The syllable count of the dictionary's word for the unary operator `u` (its first word).
pub open spec fn unary_word_syllables(ops: Seq<DictionaryOperator>, u: UnaryOperator) -> int {
    find_operator(ops, Operator::Unary(u))->Some_0.number_of_syllables as int
}

/// `k` and `v` both have plain number words below `check_values_up_to`, the dictionary has a
/// word for `u`, and `u` turns `k` into `v`.
pub open spec fn unary_reach(
    cs: Seq<DictionaryConstant>,
    ops: Seq<DictionaryOperator>,
    check_values_up_to: int,
    k: Number,
    u: UnaryOperator,
    v: Number,
) -> bool {
    &&& plain_domain(cs, check_values_up_to).contains(k)
    &&& plain_domain(cs, check_values_up_to).contains(v)
    &&& find_operator(ops, Operator::Unary(u)) is Some
    &&& u.spec_apply(k as int) == Ok::<int, ArithmeticErrorView>(v as int)
}

/// The syllable count of the dictionary's word for the binary operator `o` (its first word).
pub open spec fn binary_word_syllables(ops: Seq<DictionaryOperator>, o: BinaryOperator) -> int {
    find_operator(ops, Operator::Binary(o))->Some_0.number_of_syllables as int
}

/// `l`, `r` and `v` all have plain number words below `check_values_up_to`, the dictionary has
/// a word for `o`, and `o` joins `l` and `r` into `v`.
pub open spec fn binary_reach(
    cs: Seq<DictionaryConstant>,
    ops: Seq<DictionaryOperator>,
    check_values_up_to: int,
    l: Number,
    o: BinaryOperator,
    r: Number,
    v: Number,
) -> bool {
    &&& plain_domain(cs, check_values_up_to).contains(l)
    &&& plain_domain(cs, check_values_up_to).contains(r)
    &&& plain_domain(cs, check_values_up_to).contains(v)
    &&& find_operator(ops, Operator::Binary(o)) is Some
    &&& o.apply_defined(l as int, r as int)
    &&& o.spec_apply(l as int, r as int) == Ok::<int, ArithmeticErrorView>(v as int)
}

/// The syllables of the plain words of `l`, the word for `o` and the plain words of `r`.
pub open spec fn pair_total(
    cs: Seq<DictionaryConstant>,
    ops: Seq<DictionaryOperator>,
    l: Number,
    o: BinaryOperator,
    r: Number,
) -> int {
    plain_syllables(cs, l as int) + plain_syllables(cs, r as int) + binary_word_syllables(ops, o)
}

/// While `m` still says `l` and `r` with their plain words (each at least one syllable), it
/// says `v` in no more syllables than `l`, the word for `o` and `r` together.
pub open spec fn binary_bound(
    cs: Seq<DictionaryConstant>,
    ops: Seq<DictionaryOperator>,
    m: Map<Number, NumberRepresentation>,
    l: Number,
    o: BinaryOperator,
    r: Number,
    v: Number,
) -> bool {
    m[l].number_of_syllables == plain_syllables(cs, l as int) && m[r].number_of_syllables
        == plain_syllables(cs, r as int) && plain_syllables(cs, l as int) >= 1 && plain_syllables(
        cs,
        r as int,
    ) >= 1 ==> m[v].number_of_syllables <= pair_total(cs, ops, l, o, r)
}

/// No entry of `m2` takes more syllables than the same entry of `m1`.
pub open spec fn no_longer(
    m1: Map<Number, NumberRepresentation>,
    m2: Map<Number, NumberRepresentation>,
) -> bool {
    forall|x: Number| #[trigger]
        m2.contains_key(x) ==> m1.contains_key(x) && m2[x].number_of_syllables
            <= m1[x].number_of_syllables
}

/// What one pass of the unary word `ops[i]` (for `u`) at syllable limit `limit` does to the
/// table: every value `k` whose entry, with the operator's (first) word, stays below the
/// limit is tried, so the value `u` makes from it is said afterwards in at most the syllables
/// of `k`'s entry and of `ops[i]`.
pub open spec fn unary_word_step(
    cs: Seq<DictionaryConstant>,
    ops: Seq<DictionaryOperator>,
    check_values_up_to: int,
    limit: int,
    i: int,
    u: UnaryOperator,
    before: Map<Number, NumberRepresentation>,
    after: Map<Number, NumberRepresentation>,
) -> bool {
    forall|k: Number, v: Number|
        #[trigger] unary_reach(cs, ops, check_values_up_to, k, u, v) && before[k].number_of_syllables
            + unary_word_syllables(ops, u) < limit ==> after[v].number_of_syllables
            <= before[k].number_of_syllables + ops[i].number_of_syllables
}

/// What one pass of the binary word `ops[i]` (for `o`) at syllable limit `limit` does to the
/// table: every pair that `binary_candidate` admits on the table (with the operator's first
/// word, between `limit - 2` and `limit` syllables) is tried, so the value `o` makes from it
/// is said afterwards in at most the syllables of both entries and of `ops[i]`.
pub open spec fn binary_word_step(
    cs: Seq<DictionaryConstant>,
    ops: Seq<DictionaryOperator>,
    check_values_up_to: int,
    limit: int,
    i: int,
    o: BinaryOperator,
    before: Map<Number, NumberRepresentation>,
    after: Map<Number, NumberRepresentation>,
) -> bool {
    forall|l: Number, r: Number, v: Number|
        #[trigger] binary_reach(cs, ops, check_values_up_to, l, o, r, v) && binary_candidate(
            before,
            binary_word_syllables(ops, o),
            o == BinaryOperator::Add || o == BinaryOperator::Multiply,
            limit - 2,
            limit,
            l,
            r,
        ) ==> after[v].number_of_syllables <= before[l].number_of_syllables
            + before[r].number_of_syllables + ops[i].number_of_syllables

}

/// Every operator word of `ops` takes at least as many syllables as the first word that
/// `ops` has for the same operator, and every unary operator word takes at least one.
pub open spec fn words_regular(ops: Seq<DictionaryOperator>) -> bool {
    forall|i: int|
        0 <= i < ops.len() ==> (#[trigger] ops[i]).number_of_syllables >= find_operator(
            ops,
            ops[i].operator,
        )->Some_0.number_of_syllables && (ops[i].operator is Unary ==> ops[i].number_of_syllables
            >= 1)
}

/// The dictionary's first word for `op` stands in `ops` before index `i`.
pub open spec fn first_word_before(ops: Seq<DictionaryOperator>, op: Operator, i: int) -> bool {
    exists|j: int| 0 <= j < i && ops[j] == find_operator(ops, op)->Some_0
}

/// No unary step on `m` that takes fewer than `limit` syllables says the value it makes in
/// fewer syllables than `m` does.
pub open spec fn unary_closed_below(
    cs: Seq<DictionaryConstant>,
    ops: Seq<DictionaryOperator>,
    check_values_up_to: int,
    m: Map<Number, NumberRepresentation>,
    limit: int,
) -> bool {
    forall|k: Number, u: UnaryOperator, v: Number|
        #[trigger] unary_reach(cs, ops, check_values_up_to, k, u, v) && m[k].number_of_syllables
            + unary_word_syllables(ops, u) < limit ==> m[v].number_of_syllables
            <= m[k].number_of_syllables + unary_word_syllables(ops, u)
}

/// No binary step on `m`, from two entries of at least one syllable each, that takes fewer
/// than `limit` syllables says the value it makes in fewer syllables than `m` does.
pub open spec fn binary_closed_below(
    cs: Seq<DictionaryConstant>,
    ops: Seq<DictionaryOperator>,
    check_values_up_to: int,
    m: Map<Number, NumberRepresentation>,
    limit: int,
) -> bool {
    forall|l: Number, o: BinaryOperator, r: Number, v: Number|
        #[trigger] binary_reach(cs, ops, check_values_up_to, l, o, r, v) && m[l].number_of_syllables
            >= 1 && m[r].number_of_syllables >= 1 && m[l].number_of_syllables
            + m[r].number_of_syllables + binary_word_syllables(ops, o) < limit
            ==> m[v].number_of_syllables <= m[l].number_of_syllables + m[r].number_of_syllables
            + binary_word_syllables(ops, o)
}

/// No unary step on `m` says the value it makes in fewer syllables than `m` does.
pub open spec fn unary_closed(
    cs: Seq<DictionaryConstant>,
    ops: Seq<DictionaryOperator>,
    check_values_up_to: int,
    m: Map<Number, NumberRepresentation>,
) -> bool {
    forall|k: Number, u: UnaryOperator, v: Number|
        #[trigger] unary_reach(cs, ops, check_values_up_to, k, u, v) ==> m[v].number_of_syllables
            <= m[k].number_of_syllables + unary_word_syllables(ops, u)
}

/// No binary step on `m`, from two entries of at least one syllable each, says the value it
/// makes in fewer syllables than `m` does.
pub open spec fn binary_closed(
    cs: Seq<DictionaryConstant>,
    ops: Seq<DictionaryOperator>,
    check_values_up_to: int,
    m: Map<Number, NumberRepresentation>,
) -> bool {
    forall|l: Number, o: BinaryOperator, r: Number, v: Number|
        #[trigger] binary_reach(cs, ops, check_values_up_to, l, o, r, v) && m[l].number_of_syllables
            >= 1 && m[r].number_of_syllables >= 1 ==> m[v].number_of_syllables
            <= m[l].number_of_syllables + m[r].number_of_syllables + binary_word_syllables(ops, o)
}

/// Every entry that `m` says in fewer syllables than `start` does takes at least
/// `limit - 1` syllables: a round at syllable limit `limit` only shortens entries to that.
pub open spec fn settled_below(
    start: Map<Number, NumberRepresentation>,
    m: Map<Number, NumberRepresentation>,
    limit: int,
) -> bool {
    forall|x: Number| #[trigger]
        m.contains_key(x) && m[x].number_of_syllables < start[x].number_of_syllables
            ==> m[x].number_of_syllables >= limit - 1
}

/// The unary passes before word `i` of a round that started from `start` at syllable limit
/// `limit` tried every value whose entry in `start`, with the operator's first word, stays
/// below the limit.
pub open spec fn unary_tried(
    cs: Seq<DictionaryConstant>,
    ops: Seq<DictionaryOperator>,
    check_values_up_to: int,
    start: Map<Number, NumberRepresentation>,
    m: Map<Number, NumberRepresentation>,
    limit: int,
    i: int,
) -> bool {
    forall|k: Number, u: UnaryOperator, v: Number|
        #[trigger] unary_reach(cs, ops, check_values_up_to, k, u, v) && first_word_before(
            ops,
            Operator::Unary(u),
            i,
        ) && start[k].number_of_syllables + unary_word_syllables(ops, u) < limit
            ==> m[v].number_of_syllables <= start[k].number_of_syllables + unary_word_syllables(
            ops,
            u,
        )
}

/// The binary passes before word `i` of a round that started from `start` at syllable limit
/// `limit` tried every pair of entries, still as in `start`, that the operator's first word
/// joins into `limit - 1` syllables.
pub open spec fn binary_tried(
    cs: Seq<DictionaryConstant>,
    ops: Seq<DictionaryOperator>,
    check_values_up_to: int,
    start: Map<Number, NumberRepresentation>,
    m: Map<Number, NumberRepresentation>,
    limit: int,
    i: int,
) -> bool {
    forall|l: Number, o: BinaryOperator, r: Number, v: Number|
        #[trigger] binary_reach(cs, ops, check_values_up_to, l, o, r, v) && first_word_before(
            ops,
            Operator::Binary(o),
            i,
        ) && m[l].number_of_syllables == start[l].number_of_syllables
            && m[r].number_of_syllables == start[r].number_of_syllables
            && start[l].number_of_syllables >= 1 && start[r].number_of_syllables >= 1
            && start[l].number_of_syllables + start[r].number_of_syllables + binary_word_syllables(
            ops,
            o,
        ) == limit - 1 ==> m[v].number_of_syllables <= limit - 1
}
/// `e` reads as one operator step: an operator word of the dictionary after a derived way
/// to say a value, or between two derived ways to say values.
pub open spec fn step_wording(
    cs: Seq<DictionaryConstant>,
    ops: Seq<DictionaryOperator>,
    check_values_up_to: int,
    e: (int, Seq<char>, int),
) -> bool {
    ||| exists|a: (int, Seq<char>, int), i: int|
        0 <= i < ops.len() && #[trigger] unary_step(ops[i], a, e) && derived(
            cs,
            ops,
            check_values_up_to,
            a,
        )
    ||| exists|a: (int, Seq<char>, int), b: (int, Seq<char>, int), i: int|
        0 <= i < ops.len() && #[trigger] binary_step(ops[i], a, b, e) && derived(
            cs,
            ops,
            check_values_up_to,
            a,
        ) && derived(cs, ops, check_values_up_to, b)
}

/// Every entry of `m` that differs from the same entry of `start` reads as an operator step.
pub open spec fn changed_by_steps(
    cs: Seq<DictionaryConstant>,
    ops: Seq<DictionaryOperator>,
    check_values_up_to: int,
    start: Map<Number, NumberRepresentation>,
    m: Map<Number, NumberRepresentation>,
) -> bool {
    forall|x: Number| #[trigger]
        m.contains_key(x) && m[x] != start[x] ==> step_wording(cs, ops, check_values_up_to, m[x]@)
}

/// A value that a unary step on `m`, of fewer than `limit` syllables, says in no more
/// syllables than `m` does is said by `m` with an operator step.
pub open spec fn unary_ties_below(
    cs: Seq<DictionaryConstant>,
    ops: Seq<DictionaryOperator>,
    check_values_up_to: int,
    m: Map<Number, NumberRepresentation>,
    limit: int,
) -> bool {
    forall|k: Number, u: UnaryOperator, v: Number|
        #[trigger] unary_reach(cs, ops, check_values_up_to, k, u, v) && m[k].number_of_syllables
            + unary_word_syllables(ops, u) < limit && m[k].number_of_syllables
            + unary_word_syllables(ops, u) <= m[v].number_of_syllables ==> step_wording(
            cs,
            ops,
            check_values_up_to,
            m[v]@,
        )
}

/// A value that a binary step on `m` (from two entries of at least one syllable each), of
/// fewer than `limit` syllables, says in no more syllables than `m` does is said by `m` with
/// an operator step.
pub open spec fn binary_ties_below(
    cs: Seq<DictionaryConstant>,
    ops: Seq<DictionaryOperator>,
    check_values_up_to: int,
    m: Map<Number, NumberRepresentation>,
    limit: int,
) -> bool {
    forall|l: Number, o: BinaryOperator, r: Number, v: Number|
        #[trigger] binary_reach(cs, ops, check_values_up_to, l, o, r, v) && m[l].number_of_syllables
            >= 1 && m[r].number_of_syllables >= 1 && m[l].number_of_syllables
            + m[r].number_of_syllables + binary_word_syllables(ops, o) < limit
            && m[l].number_of_syllables + m[r].number_of_syllables + binary_word_syllables(ops, o)
            <= m[v].number_of_syllables ==> step_wording(cs, ops, check_values_up_to, m[v]@)
}

/// A value that `m` says in fewer syllables than some other entry, and that a unary step on
/// `m` says in no more syllables, is said by `m` with an operator step: a tie replaces the
/// plain words.
pub open spec fn unary_ties_replaced(
    cs: Seq<DictionaryConstant>,
    ops: Seq<DictionaryOperator>,
    check_values_up_to: int,
    m: Map<Number, NumberRepresentation>,
) -> bool {
    forall|k: Number, u: UnaryOperator, v: Number|
        #[trigger] unary_reach(cs, ops, check_values_up_to, k, u, v) && m[k].number_of_syllables
            + unary_word_syllables(ops, u) <= m[v].number_of_syllables && (exists|x: Number|
            m.contains_key(x) && m[v].number_of_syllables < m[x].number_of_syllables)
            ==> step_wording(cs, ops, check_values_up_to, m[v]@)
}

/// A value that `m` says in fewer syllables than some other entry, and that a binary step on
/// `m` (from two entries of at least one syllable each) says in no more syllables, is said by
/// `m` with an operator step: a tie replaces the plain words.
pub open spec fn binary_ties_replaced(
    cs: Seq<DictionaryConstant>,
    ops: Seq<DictionaryOperator>,
    check_values_up_to: int,
    m: Map<Number, NumberRepresentation>,
) -> bool {
    forall|l: Number, o: BinaryOperator, r: Number, v: Number|
        #[trigger] binary_reach(cs, ops, check_values_up_to, l, o, r, v) && m[l].number_of_syllables
            >= 1 && m[r].number_of_syllables >= 1 && m[l].number_of_syllables
            + m[r].number_of_syllables + binary_word_syllables(ops, o) <= m[v].number_of_syllables
            && (exists|x: Number|
            m.contains_key(x) && m[v].number_of_syllables < m[x].number_of_syllables)
            ==> step_wording(cs, ops, check_values_up_to, m[v]@)
}

/// The unary passes before word `i` of a round that started from `start` at syllable limit
/// `limit` replaced every entry that a tried value reaches in no more syllables.
pub open spec fn unary_ties_tried(
    cs: Seq<DictionaryConstant>,
    ops: Seq<DictionaryOperator>,
    check_values_up_to: int,
    start: Map<Number, NumberRepresentation>,
    m: Map<Number, NumberRepresentation>,
    limit: int,
    i: int,
) -> bool {
    forall|k: Number, u: UnaryOperator, v: Number|
        #[trigger] unary_reach(cs, ops, check_values_up_to, k, u, v) && first_word_before(
            ops,
            Operator::Unary(u),
            i,
        ) && start[k].number_of_syllables + unary_word_syllables(ops, u) < limit
            && start[k].number_of_syllables + unary_word_syllables(ops, u)
            <= m[v].number_of_syllables ==> step_wording(cs, ops, check_values_up_to, m[v]@)
}

/// The binary passes before word `i` of a round that started from `start` at syllable limit
/// `limit` replaced every entry that a tried pair reaches in no more syllables.
pub open spec fn binary_ties_tried(
    cs: Seq<DictionaryConstant>,
    ops: Seq<DictionaryOperator>,
    check_values_up_to: int,
    start: Map<Number, NumberRepresentation>,
    m: Map<Number, NumberRepresentation>,
    limit: int,
    i: int,
) -> bool {
    forall|l: Number, o: BinaryOperator, r: Number, v: Number|
        #[trigger] binary_reach(cs, ops, check_values_up_to, l, o, r, v) && first_word_before(
            ops,
            Operator::Binary(o),
            i,
        ) && m[l].number_of_syllables == start[l].number_of_syllables
            && m[r].number_of_syllables == start[r].number_of_syllables
            && start[l].number_of_syllables >= 1 && start[r].number_of_syllables >= 1
            && start[l].number_of_syllables + start[r].number_of_syllables + binary_word_syllables(
            ops,
            o,
        ) == limit - 1 && limit - 1 <= m[v].number_of_syllables ==> step_wording(
            cs,
            ops,
            check_values_up_to,
            m[v]@,
        )
}

/// Every value from 0 up to (not including) `check_values_up_to` has plain number words of at
/// least one syllable.
pub open spec fn plain_words_spoken(cs: Seq<DictionaryConstant>, check_values_up_to: int) -> bool {
    forall|n: int|
        0 <= n < check_values_up_to ==> #[trigger] spec_value_to_words(cs, n) is Some
            && plain_syllables(cs, n) >= 1
}

/// No way to say a value that is built from the plain number words by operator steps takes
/// fewer syllables than the entry of `m` for that value.
pub open spec fn fewest_syllables(
    cs: Seq<DictionaryConstant>,
    ops: Seq<DictionaryOperator>,
    check_values_up_to: int,
    m: Map<Number, NumberRepresentation>,
) -> bool {
    forall|t: (int, Seq<char>, int)| #[trigger]
        derived(cs, ops, check_values_up_to, t) ==> m[t.0 as Number].number_of_syllables <= t.2
}

/// When every plain number word takes at least one syllable and no operator word takes a
/// negative count, every entry of a derivation takes at least one syllable.
pub proof fn lemma_derivation_spoken(
    cs: Seq<DictionaryConstant>,
    ops: Seq<DictionaryOperator>,
    check_values_up_to: int,
    trail: Seq<(int, Seq<char>, int)>,
    j: int,
)
    requires
        plain_words_spoken(cs, check_values_up_to),
        operators_in_range(ops),
        derivation(cs, ops, check_values_up_to, trail),
        0 <= j < trail.len(),
    ensures
        trail[j].2 >= 1,
    decreases j,
{
    let t = trail[j];
    assert(justified(cs, ops, check_values_up_to, trail, j));
    if spec_value_to_words(cs, t.0) == Some(t) {
        assert(plain_syllables(cs, t.0) >= 1);
    } else if exists|i: int, a: int|
        0 <= i < ops.len() && 0 <= a < j && #[trigger] unary_step(ops[i], trail[a], t) {
        let (i, a) = choose|i: int, a: int|
            0 <= i < ops.len() && 0 <= a < j && #[trigger] unary_step(ops[i], trail[a], t);
        lemma_derivation_spoken(cs, ops, check_values_up_to, trail, a);
        assert(syllables_in_range(ops[i].number_of_syllables as int));
    } else {
        let (i, a, b) = choose|i: int, a: int, b: int|
            0 <= i < ops.len() && 0 <= a < j && 0 <= b < j && #[trigger] binary_step(
                ops[i],
                trail[a],
                trail[b],
                t,
            );
        lemma_derivation_spoken(cs, ops, check_values_up_to, trail, a);
        lemma_derivation_spoken(cs, ops, check_values_up_to, trail, b);
        assert(syllables_in_range(ops[i].number_of_syllables as int));
    }
}

/// A table that holds every value of the range, says each in no more syllables than its plain
/// words and in at least one, and is closed under one more operator step, says every value in
/// no more syllables than any derivation does.
pub proof fn lemma_closed_is_fewest(
    cs: Seq<DictionaryConstant>,
    ops: Seq<DictionaryOperator>,
    check_values_up_to: int,
    m: Map<Number, NumberRepresentation>,
    trail: Seq<(int, Seq<char>, int)>,
    j: int,
)
    requires
        words_regular(ops),
        plain_words_spoken(cs, check_values_up_to),
        check_values_up_to <= i32::MAX,
        m.dom() == plain_domain(cs, check_values_up_to),
        forall|k: Number| #[trigger]
            m.contains_key(k) ==> m[k].number_of_syllables <= plain_syllables(cs, k as int)
                && m[k].number_of_syllables >= 1,
        unary_closed(cs, ops, check_values_up_to, m),
        binary_closed(cs, ops, check_values_up_to, m),
        derivation(cs, ops, check_values_up_to, trail),
        0 <= j < trail.len(),
    ensures
        m[trail[j].0 as Number].number_of_syllables <= trail[j].2,
    decreases j,
{
    let t = trail[j];
    let v = t.0 as Number;
    assert(justified(cs, ops, check_values_up_to, trail, j));
    assert(plain_domain(cs, check_values_up_to).contains(v));
    if spec_value_to_words(cs, t.0) == Some(t) {
        assert(m.contains_key(v));
    } else if exists|i: int, a: int|
        0 <= i < ops.len() && 0 <= a < j && #[trigger] unary_step(ops[i], trail[a], t) {
        let (i, a) = choose|i: int, a: int|
            0 <= i < ops.len() && 0 <= a < j && #[trigger] unary_step(ops[i], trail[a], t);
        lemma_closed_is_fewest(cs, ops, check_values_up_to, m, trail, a);
        assert(justified(cs, ops, check_values_up_to, trail, a));
        let k = trail[a].0 as Number;
        assert(plain_domain(cs, check_values_up_to).contains(k));
        lemma_find_operator_present(ops, i);
        assert(ops[i].number_of_syllables >= find_operator(ops, ops[i].operator)->Some_0.number_of_syllables);
        match ops[i].operator {
            Operator::Unary(u) => {
                assert(unary_reach(cs, ops, check_values_up_to, k, u, v));
            },
            Operator::Binary(_) => {},
        }
    } else {
        let (i, a, b) = choose|i: int, a: int, b: int|
            0 <= i < ops.len() && 0 <= a < j && 0 <= b < j && #[trigger] binary_step(
                ops[i],
                trail[a],
                trail[b],
                t,
            );
        lemma_closed_is_fewest(cs, ops, check_values_up_to, m, trail, a);
        lemma_closed_is_fewest(cs, ops, check_values_up_to, m, trail, b);
        assert(justified(cs, ops, check_values_up_to, trail, a));
        assert(justified(cs, ops, check_values_up_to, trail, b));
        let l = trail[a].0 as Number;
        let r = trail[b].0 as Number;
        assert(plain_domain(cs, check_values_up_to).contains(l));
        assert(plain_domain(cs, check_values_up_to).contains(r));
        assert(m.contains_key(l) && m.contains_key(r));
        lemma_find_operator_present(ops, i);
        assert(ops[i].number_of_syllables >= find_operator(ops, ops[i].operator)->Some_0.number_of_syllables);
        match ops[i].operator {
            Operator::Binary(o) => {
                assert(binary_reach(cs, ops, check_values_up_to, l, o, r, v));
            },
            Operator::Unary(_) => {},
        }
    }
}

/// The plain number words for every value below `check_values_up_to` that has them, with a
/// derivation that holds each of them.
fn plain_solutions(check_values_up_to: Number, dictionary: &Dictionary) -> (r: (
    HashMap<Number, NumberRepresentation>,
    Ghost<Seq<(int, Seq<char>, int)>>,
))
    requires
        1 <= check_values_up_to,
        forall|n: int| 0 < n < check_values_up_to ==> #[trigger] words_defined(dictionary.constants@, n),
    ensures
        r.0@.dom() == plain_domain(dictionary.constants@, check_values_up_to as int),
        forall|k: Number| #[trigger]
            r.0@.contains_key(k) ==> r.0@[k].value == k && Some(r.0@[k]@) == spec_value_to_words(
                dictionary.constants@,
                k as int,
            ) && r.1@.contains(r.0@[k]@),
        derivation(dictionary.constants@, dictionary.operators@, check_values_up_to as int, r.1@),
{
    let ghost cs = dictionary.constants@;
    let ghost ops = dictionary.operators@;
    let ghost check = check_values_up_to as int;
    let mut map_of_best_solutions: HashMap<Number, NumberRepresentation> = HashMap::new();
    let ghost mut trail: Seq<(int, Seq<char>, int)> = Seq::empty();
    let mut n: Number = 0;
    while n < check_values_up_to
        invariant
            0 <= n <= check_values_up_to,
            cs == dictionary.constants@,
            ops == dictionary.operators@,
            check == check_values_up_to,
            forall|i: int| 0 < i < check_values_up_to ==> #[trigger] words_defined(cs, i),
            forall|k: Number|
                #![trigger map_of_best_solutions@.contains_key(k)]
                #![trigger spec_value_to_words(cs, k as int)]
                map_of_best_solutions@.contains_key(k) <==> (0 <= k < n && spec_value_to_words(
                    cs,
                    k as int,
                ).is_some()),
            forall|k: Number| #[trigger]
                map_of_best_solutions@.contains_key(k) ==> map_of_best_solutions@[k].value == k
                    && Some(map_of_best_solutions@[k]@) == spec_value_to_words(cs, k as int)
                    && trail.contains(map_of_best_solutions@[k]@),
            derivation(cs, ops, check, trail),
        decreases check_values_up_to - n,
    {
        let value = value_to_words(n, dictionary);
        if let Some(v) = value {
            let ghost e = v@;
            proof {
                if n == 0 {
                    lemma_find_constant_value(cs, 0);
                }
                assert(spec_value_to_words(cs, e.0) == Some(e));
                assert(justified(cs, ops, check, trail.push(e), trail.len() as int));
                lemma_derivation_push(cs, ops, check, trail, e);
                lemma_push_contains(trail, e);
            }
            map_of_best_solutions.insert(n, v);
            proof {
                trail = trail.push(e);
            }
        }
        n = n + 1;
    }
    proof {
        assert(map_of_best_solutions@.dom() =~= plain_domain(cs, check));
    }
    (map_of_best_solutions, Ghost(trail))
}

/// The largest syllable count in a non-empty table.
fn max_syllables(best_solutions: &HashMap<Number, NumberRepresentation>) -> (r: Number)
    requires
        exists|k: Number| best_solutions@.contains_key(k),
    ensures
        exists|k: Number| #[trigger]
            best_solutions@.contains_key(k) && best_solutions@[k].number_of_syllables == r,
        forall|k: Number| #[trigger]
            best_solutions@.contains_key(k) ==> best_solutions@[k].number_of_syllables <= r,
{
    let mut best: Option<Number> = None;
    let entries = best_solutions.iter();
    let ghost s0 = entries.remaining();
    let ghost mut seen: Set<Number> = Set::empty();
    for kv in it: entries
        invariant
            it.seq() == s0,
            forall|j: int| 0 <= j < s0.len() ==> best_solutions@.contains_key(*s0[j].0) && *s0[j].1
                == best_solutions@[*s0[j].0],
            forall|j: int| 0 <= j < it.index() ==> #[trigger] seen.contains(*s0[j].0),
            forall|x: Number| #[trigger] seen.contains(x) ==> best_solutions@.contains_key(x),
            best is None ==> seen == Set::<Number>::empty(),
            match best {
                Some(b) => (exists|k: Number| #[trigger]
                    best_solutions@.contains_key(k) && best_solutions@[k].number_of_syllables == b)
                    && forall|x: Number| #[trigger]
                    seen.contains(x) ==> best_solutions@[x].number_of_syllables <= b,
                None => true,
            },
    {
        let ghost j = it.index();
        assert(it.seq()[j] == kv);
        let (k, v) = kv;
        proof {
            seen = seen.insert(*k);
            assert(best_solutions@.contains_key(*k) && best_solutions@[*k] == *v);
        }
        match best {
            None => {
                best = Some(v.number_of_syllables);
            },
            Some(b) => {
                if v.number_of_syllables > b {
                    best = Some(v.number_of_syllables);
                }
            },
        }
    }
    proof {
        assert forall|x: Number| best_solutions@.contains_key(x) implies seen.contains(x) by {
            assert(s0.contains((&x, &best_solutions@[x])));
            let j = choose|j: int| 0 <= j < s0.len() && s0[j] == (&x, &best_solutions@[x]);
            assert(seen.contains(*s0[j].0));
        }
        let x = choose|x: Number| best_solutions@.contains_key(x);
        assert(seen.contains(x));
        assert forall|x: Number| best_solutions@.contains_key(x) implies best_solutions@[x].number_of_syllables
            <= best->Some_0 by {
            assert(seen.contains(x));
        }
    }
    match best {
        Some(b) => b,
        None => {
            proof {
                assert(false);
            }
            0
        },
    }
}


/// One pass of a unary operator word over the table: every value that the word can turn
/// into a way to say something in fewer than `current_limit` syllables is tried, and the
/// result replaces the entry of the value it says when it takes no more syllables.
fn apply_unary_word(
    best_solutions: &mut HashMap<Number, NumberRepresentation>,
    word_index: usize,
    operator: UnaryOperator,
    current_limit: Number,
    check_values_up_to: Number,
    dictionary: &Dictionary,
    Ghost(trail): Ghost<Seq<(int, Seq<char>, int)>>,
    Ghost(start): Ghost<Map<Number, NumberRepresentation>>,
) -> (r: Ghost<Seq<(int, Seq<char>, int)>>)
    requires
        word_index < dictionary.operators@.len(),
        dictionary.operators@[word_index as int].operator == Operator::Unary(operator),
        no_longer(start, old(best_solutions)@),
        words_regular(dictionary.operators@) ==> unary_closed_below(
            dictionary.constants@,
            dictionary.operators@,
            check_values_up_to as int,
            start,
            current_limit - 1,
        ) && settled_below(start, old(best_solutions)@, current_limit as int),
        operators_in_range(dictionary.operators@),
        syllables_in_range(current_limit as int),
        sound_solutions(
            dictionary.constants@,
            dictionary.operators@,
            check_values_up_to as int,
            old(best_solutions)@,
            trail,
        ),
    ensures
        sound_solutions(
            dictionary.constants@,
            dictionary.operators@,
            check_values_up_to as int,
            final(best_solutions)@,
            r@,
        ),
        no_longer(old(best_solutions)@, final(best_solutions)@),
        unary_word_step(
            dictionary.constants@,
            dictionary.operators@,
            check_values_up_to as int,
            current_limit as int,
            word_index as int,
            operator,
            old(best_solutions)@,
            final(best_solutions)@,
        ),
        words_regular(dictionary.operators@) ==> settled_below(
            start,
            final(best_solutions)@,
            current_limit as int,
        ),
        changed_by_steps(
            dictionary.constants@,
            dictionary.operators@,
            check_values_up_to as int,
            old(best_solutions)@,
            final(best_solutions)@,
        ),
        forall|k: Number, v: Number|
            #[trigger] unary_reach(
                dictionary.constants@,
                dictionary.operators@,
                check_values_up_to as int,
                k,
                operator,
                v,
            ) && old(best_solutions)@[k].number_of_syllables + unary_word_syllables(
                dictionary.operators@,
                operator,
            ) < current_limit && old(best_solutions)@[k].number_of_syllables
                + dictionary.operators@[word_index as int].number_of_syllables
                <= final(best_solutions)@[v].number_of_syllables ==> step_wording(
                dictionary.constants@,
                dictionary.operators@,
                check_values_up_to as int,
                final(best_solutions)@[v]@,
            ),
{
    let ghost cs = dictionary.constants@;
    let ghost ops = dictionary.operators@;
    let ghost check = check_values_up_to as int;
    let ghost m0 = best_solutions@;
    let word = &dictionary.operators[word_index];
    proof {
        lemma_find_operator_present(ops, word_index as int);
        lemma_find_operator_in(ops, Operator::Unary(operator));
        let w = find_operator(ops, Operator::Unary(operator))->Some_0;
        let i = choose|i: int| 0 <= i < ops.len() && ops[i] == w;
        assert(syllables_in_range(ops[i].number_of_syllables as int));
    }
    let candidates = get_candidates_unary(best_solutions, operator, current_limit, dictionary);
    let ghost mut t = trail;
    let mut c: usize = 0;
    while c < candidates.len()
        invariant
            c <= candidates@.len(),
            cs == dictionary.constants@,
            ops == dictionary.operators@,
            check == check_values_up_to,
            word_index < ops.len(),
            *word == ops[word_index as int],
            word.operator == Operator::Unary(operator),
            operators_in_range(ops),
            sound_solutions(cs, ops, check, best_solutions@, t),
            m0.dom() == plain_domain(cs, check),
            no_longer(m0, best_solutions@),
            forall|x: Number| #[trigger] candidates@.contains(x) ==> best_solutions@.contains_key(x),
            forall|x: Number| #[trigger]
                candidates@.contains(x) ==> m0[x].number_of_syllables + unary_word_syllables(
                    ops,
                    operator,
                ) < current_limit,
            find_operator(ops, Operator::Unary(operator)) is Some,
            no_longer(start, m0),
            words_regular(ops) ==> unary_closed_below(cs, ops, check, start, current_limit - 1)
                && settled_below(start, best_solutions@, current_limit as int),
            forall|j: int, v: Number|
                0 <= j < c && #[trigger] unary_reach(cs, ops, check, candidates@[j], operator, v)
                    ==> best_solutions@[v].number_of_syllables <= m0[candidates@[j]].number_of_syllables
                    + word.number_of_syllables,
            changed_by_steps(cs, ops, check, m0, best_solutions@),
            forall|j: int, v: Number|
                0 <= j < c && #[trigger] unary_reach(cs, ops, check, candidates@[j], operator, v)
                    && m0[candidates@[j]].number_of_syllables + word.number_of_syllables
                    <= best_solutions@[v].number_of_syllables ==> step_wording(
                    cs,
                    ops,
                    check,
                    best_solutions@[v]@,
                ),
        decreases candidates.len() - c,
    {
        let value = candidates[c];
        let ghost before = best_solutions@;
        proof {
            assert(candidates@.contains(value));
            assert(syllables_in_range(ops[word_index as int].number_of_syllables as int));
        }
        match operator.apply(value) {
            Ok(new_value) => {
                // Values out of the checked range are not kept
                if new_value < check_values_up_to {
                    let cost = match best_solutions.get(&value) {
                        Some(existing) => existing.number_of_syllables,
                        None => {
                            proof {
                                assert(false);
                            }
                            0
                        },
                    };
                    let new_cost = cost + word.number_of_syllables;
                    if should_update(best_solutions, new_value, new_cost) {
                        let mut representation = match best_solutions.get(&value) {
                            Some(existing) => existing.representation.clone(),
                            None => {
                                proof {
                                    assert(false);
                                }
                                String::new()
                            },
                        };
                        representation.append(" ");
                        representation.append(word.representation.as_str());
                        let entry = NumberRepresentation {
                            value: new_value,
                            representation,
                            number_of_syllables: new_cost,
                        };
                        let ghost e = entry@;
                        proof {
                            if words_regular(ops) && new_cost < start[new_value].number_of_syllables {
                                assert(ops[word_index as int].number_of_syllables
                                    >= unary_word_syllables(ops, operator));
                                assert(m0.contains_key(value) && before.contains_key(value));
                                if cost >= start[value].number_of_syllables {
                                    assert(unary_reach(cs, ops, check, value, operator, new_value));
                                }
                                assert(new_cost >= current_limit - 1);
                            }
                            let a = best_solutions@[value]@;
                            assert(t.contains(a));
                            let j = choose|j: int| 0 <= j < t.len() && t[j] == a;
                            let longer = t.push(e);
                            assert(longer[j] == a);
                            assert(unary_step(ops[word_index as int], longer[j], e));
                            assert(plain_domain(cs, check).contains(new_value));
                            assert(justified(cs, ops, check, longer, t.len() as int));
                            lemma_derivation_push(cs, ops, check, t, e);
                            lemma_push_contains(t, e);
                            assert(unary_step(ops[word_index as int], a, e));
                            assert(derivation(cs, ops, check, t) && t.contains(a));
                            assert(step_wording(cs, ops, check, e));
                        }
                        best_solutions.insert(new_value, entry);
                        proof {
                            assert(best_solutions@[new_value]@ == e);
                            assert(changed_by_steps(cs, ops, check, before, best_solutions@));
                            t = t.push(e);
                            assert(best_solutions@.dom() =~= plain_domain(cs, check));
                            if words_regular(ops) {
                                assert forall|x: Number| #[trigger]
                                    best_solutions@.contains_key(x)
                                        && best_solutions@[x].number_of_syllables
                                        < start[x].number_of_syllables implies best_solutions@[x].number_of_syllables
                                    >= current_limit - 1 by {
                                    if x != new_value {
                                        assert(before.contains_key(x));
                                    }
                                }
                            }
                        }
                    }
                    proof {
                        assert forall|v: Number| #[trigger]
                            unary_reach(cs, ops, check, value, operator, v) implies best_solutions@[v].number_of_syllables
                            <= m0[value].number_of_syllables + word.number_of_syllables by {
                            assert(v == new_value);
                            assert(before.contains_key(v));
                        }
                        assert forall|v: Number| #[trigger]
                            unary_reach(cs, ops, check, value, operator, v)
                                && m0[value].number_of_syllables + word.number_of_syllables
                                <= best_solutions@[v].number_of_syllables implies step_wording(
                            cs,
                            ops,
                            check,
                            best_solutions@[v]@,
                        ) by {
                            assert(v == new_value);
                            assert(before.contains_key(v));
                        }
                    }
                }
            },
            Err(_) => {},
        }
        proof {
            assert(no_longer(before, best_solutions@));
            assert(changed_by_steps(cs, ops, check, before, best_solutions@));
            assert forall|x: Number| #[trigger]
                best_solutions@.contains_key(x) && best_solutions@[x] != m0[x] implies step_wording(
                cs,
                ops,
                check,
                best_solutions@[x]@,
            ) by {
                assert(before.contains_key(x));
            }
            assert forall|j: int, v: Number|
                0 <= j < c + 1 && #[trigger] unary_reach(cs, ops, check, candidates@[j], operator, v)
                    && m0[candidates@[j]].number_of_syllables + word.number_of_syllables
                    <= best_solutions@[v].number_of_syllables implies step_wording(
                cs,
                ops,
                check,
                best_solutions@[v]@,
            ) by {
                assert(before.contains_key(v));
                if j < c {
                    assert(best_solutions@.contains_key(v));
                } else {
                    assert(candidates@[j] == value);
                    assert(plain_domain(cs, check).contains(v));
                }
            }
            assert forall|j: int, v: Number|
                0 <= j < c + 1 && #[trigger] unary_reach(cs, ops, check, candidates@[j], operator, v)
                    implies best_solutions@[v].number_of_syllables
                <= m0[candidates@[j]].number_of_syllables + word.number_of_syllables by {
                if j < c {
                    assert(before.contains_key(v));
                } else {
                    assert(candidates@[j] == value);
                    assert(plain_domain(cs, check).contains(v));
                }
            }
        }
        c = c + 1;
    }
    proof {
        assert forall|k: Number, v: Number|
            #[trigger] unary_reach(cs, ops, check, k, operator, v) && m0[k].number_of_syllables
                + unary_word_syllables(ops, operator) < current_limit implies best_solutions@[v].number_of_syllables
            <= m0[k].number_of_syllables + ops[word_index as int].number_of_syllables by {
            assert(m0.contains_key(k));
            assert(candidates@.contains(k));
            let j = choose|j: int| 0 <= j < candidates@.len() && candidates@[j] == k;
            assert(unary_reach(cs, ops, check, candidates@[j], operator, v));
        }
        assert forall|k: Number, v: Number|
            #[trigger] unary_reach(cs, ops, check, k, operator, v) && m0[k].number_of_syllables
                + unary_word_syllables(ops, operator) < current_limit && m0[k].number_of_syllables
                + ops[word_index as int].number_of_syllables
                <= best_solutions@[v].number_of_syllables implies step_wording(
            cs,
            ops,
            check,
            best_solutions@[v]@,
        ) by {
            assert(m0.contains_key(k));
            assert(candidates@.contains(k));
            let j = choose|j: int| 0 <= j < candidates@.len() && candidates@[j] == k;
            assert(unary_reach(cs, ops, check, candidates@[j], operator, v));
        }
    }
    Ghost(t)
}


/// One pass of a binary operator word over the table: every pair of values that the word
/// can join into a way to say something in more than `current_limit - 2` and fewer than
/// `current_limit` syllables is tried, and the result replaces the entry of the value it
/// says when it takes no more syllables.
fn apply_binary_word(
    best_solutions: &mut HashMap<Number, NumberRepresentation>,
    word_index: usize,
    operator: BinaryOperator,
    current_limit: Number,
    check_values_up_to: Number,
    dictionary: &Dictionary,
    Ghost(trail): Ghost<Seq<(int, Seq<char>, int)>>,
    Ghost(start): Ghost<Map<Number, NumberRepresentation>>,
) -> (r: Ghost<Seq<(int, Seq<char>, int)>>)
    requires
        word_index < dictionary.operators@.len(),
        dictionary.operators@[word_index as int].operator == Operator::Binary(operator),
        no_longer(start, old(best_solutions)@),
        words_regular(dictionary.operators@) ==> settled_below(
            start,
            old(best_solutions)@,
            current_limit as int,
        ),
        operators_in_range(dictionary.operators@),
        2 <= current_limit,
        syllables_in_range(current_limit as int),
        operator == BinaryOperator::Add ==> check_values_up_to <= 1073741824,
        sound_solutions(
            dictionary.constants@,
            dictionary.operators@,
            check_values_up_to as int,
            old(best_solutions)@,
            trail,
        ),
    ensures
        sound_solutions(
            dictionary.constants@,
            dictionary.operators@,
            check_values_up_to as int,
            final(best_solutions)@,
            r@,
        ),
        no_longer(old(best_solutions)@, final(best_solutions)@),
        binary_word_step(
            dictionary.constants@,
            dictionary.operators@,
            check_values_up_to as int,
            current_limit as int,
            word_index as int,
            operator,
            old(best_solutions)@,
            final(best_solutions)@,
        ),
        words_regular(dictionary.operators@) ==> settled_below(
            start,
            final(best_solutions)@,
            current_limit as int,
        ),
        changed_by_steps(
            dictionary.constants@,
            dictionary.operators@,
            check_values_up_to as int,
            old(best_solutions)@,
            final(best_solutions)@,
        ),
        forall|l: Number, r: Number, v: Number|
            #[trigger] binary_reach(
                dictionary.constants@,
                dictionary.operators@,
                check_values_up_to as int,
                l,
                operator,
                r,
                v,
            ) && binary_candidate(
                old(best_solutions)@,
                binary_word_syllables(dictionary.operators@, operator),
                operator == BinaryOperator::Add || operator == BinaryOperator::Multiply,
                current_limit - 2,
                current_limit as int,
                l,
                r,
            ) && old(best_solutions)@[l].number_of_syllables
                + old(best_solutions)@[r].number_of_syllables
                + dictionary.operators@[word_index as int].number_of_syllables
                <= final(best_solutions)@[v].number_of_syllables ==> step_wording(
                dictionary.constants@,
                dictionary.operators@,
                check_values_up_to as int,
                final(best_solutions)@[v]@,
            ),
{
    let ghost cs = dictionary.constants@;
    let ghost ops = dictionary.operators@;
    let ghost check = check_values_up_to as int;
    let ghost m0 = best_solutions@;
    let word = &dictionary.operators[word_index];
    proof {
        lemma_find_operator_present(ops, word_index as int);
        lemma_find_operator_in(ops, Operator::Binary(operator));
        let w = find_operator(ops, Operator::Binary(operator))->Some_0;
        let i = choose|i: int| 0 <= i < ops.len() && ops[i] == w;
        assert(syllables_in_range(ops[i].number_of_syllables as int));
    }
    let candidates = get_candidates_binary(
        best_solutions,
        operator,
        current_limit - 2,
        current_limit,
        dictionary,
    );
    let ghost mut t = trail;
    let mut c: usize = 0;
    while c < candidates.len()
        invariant
            c <= candidates@.len(),
            cs == dictionary.constants@,
            ops == dictionary.operators@,
            check == check_values_up_to,
            word_index < ops.len(),
            *word == ops[word_index as int],
            word.operator == Operator::Binary(operator),
            operators_in_range(ops),
            operator == BinaryOperator::Add ==> check_values_up_to <= 1073741824,
            sound_solutions(cs, ops, check, best_solutions@, t),
            no_longer(m0, best_solutions@),
            forall|p: (Number, Number)| #[trigger]
                candidates@.contains(p) ==> best_solutions@.contains_key(p.0)
                    && best_solutions@.contains_key(p.1) && binary_candidate(
                    m0,
                    binary_word_syllables(ops, operator),
                    operator == BinaryOperator::Add || operator == BinaryOperator::Multiply,
                    current_limit - 2,
                    current_limit as int,
                    p.0,
                    p.1,
                ),
            find_operator(ops, Operator::Binary(operator)) is Some,
            no_longer(start, m0),
            words_regular(ops) ==> settled_below(start, best_solutions@, current_limit as int),
            m0.dom() == plain_domain(cs, check),
            forall|j: int, v: Number|
                0 <= j < c && #[trigger] binary_reach(
                    cs,
                    ops,
                    check,
                    candidates@[j].0,
                    operator,
                    candidates@[j].1,
                    v,
                ) ==> best_solutions@[v].number_of_syllables <= m0[candidates@[j].0].number_of_syllables
                    + m0[candidates@[j].1].number_of_syllables + word.number_of_syllables,
            changed_by_steps(cs, ops, check, m0, best_solutions@),
            forall|j: int, v: Number|
                0 <= j < c && #[trigger] binary_reach(
                    cs,
                    ops,
                    check,
                    candidates@[j].0,
                    operator,
                    candidates@[j].1,
                    v,
                ) && m0[candidates@[j].0].number_of_syllables
                    + m0[candidates@[j].1].number_of_syllables + word.number_of_syllables
                    <= best_solutions@[v].number_of_syllables ==> step_wording(
                    cs,
                    ops,
                    check,
                    best_solutions@[v]@,
                ),
        decreases candidates.len() - c,
    {
        let (value_left, value_right) = candidates[c];
        let ghost before = best_solutions@;
        proof {
            assert(candidates@.contains((value_left, value_right)));
            assert(syllables_in_range(ops[word_index as int].number_of_syllables as int));
            assert(plain_domain(cs, check).contains(value_left));
            assert(plain_domain(cs, check).contains(value_right));
        }
        match operator.apply(value_left, value_right) {
            Ok(new_value) => {
                // Values out of the checked range are not kept
                if new_value < check_values_up_to {
                    let cost_left = match best_solutions.get(&value_left) {
                        Some(existing) => existing.number_of_syllables,
                        None => {
                            proof {
                                assert(false);
                            }
                            0
                        },
                    };
                    let cost_right = match best_solutions.get(&value_right) {
                        Some(existing) => existing.number_of_syllables,
                        None => {
                            proof {
                                assert(false);
                            }
                            0
                        },
                    };
                    let new_cost = cost_left + cost_right + word.number_of_syllables;
                    if should_update(best_solutions, new_value, new_cost) {
                        let mut representation = match best_solutions.get(&value_left) {
                            Some(existing) => existing.representation.clone(),
                            None => {
                                proof {
                                    assert(false);
                                }
                                String::new()
                            },
                        };
                        representation.append(" ");
                        representation.append(word.representation.as_str());
                        representation.append(" ");
                        match best_solutions.get(&value_right) {
                            Some(existing) => representation.append(existing.representation.as_str()),
                            None => {
                                proof {
                                    assert(false);
                                }
                            },
                        }
                        let entry = NumberRepresentation {
                            value: new_value,
                            representation,
                            number_of_syllables: new_cost,
                        };
                        let ghost e = entry@;
                        proof {
                            if words_regular(ops) && new_cost < start[new_value].number_of_syllables {
                                assert(ops[word_index as int].number_of_syllables
                                    >= binary_word_syllables(ops, operator));
                                assert(m0.contains_key(value_left) && before.contains_key(value_left));
                                assert(m0.contains_key(value_right) && before.contains_key(value_right));
                                assert(new_cost >= current_limit - 1);
                            }
                            let a = best_solutions@[value_left]@;
                            let b = best_solutions@[value_right]@;
                            assert(t.contains(a));
                            assert(t.contains(b));
                            let j = choose|j: int| 0 <= j < t.len() && t[j] == a;
                            let l = choose|l: int| 0 <= l < t.len() && t[l] == b;
                            let longer = t.push(e);
                            assert(longer[j] == a);
                            assert(longer[l] == b);
                            assert(binary_step(ops[word_index as int], longer[j], longer[l], e));
                            assert(plain_domain(cs, check).contains(new_value));
                            assert(justified(cs, ops, check, longer, t.len() as int));
                            lemma_derivation_push(cs, ops, check, t, e);
                            lemma_push_contains(t, e);
                            assert(binary_step(ops[word_index as int], a, b, e));
                            assert(derivation(cs, ops, check, t) && t.contains(a) && t.contains(b));
                            assert(step_wording(cs, ops, check, e));
                        }
                        best_solutions.insert(new_value, entry);
                        proof {
                            assert(best_solutions@[new_value]@ == e);
                            assert(changed_by_steps(cs, ops, check, before, best_solutions@));
                            t = t.push(e);
                            assert(best_solutions@.dom() =~= plain_domain(cs, check));
                            if words_regular(ops) {
                                assert forall|x: Number| #[trigger]
                                    best_solutions@.contains_key(x)
                                        && best_solutions@[x].number_of_syllables
                                        < start[x].number_of_syllables implies best_solutions@[x].number_of_syllables
                                    >= current_limit - 1 by {
                                    if x != new_value {
                                        assert(before.contains_key(x));
                                    }
                                }
                            }
                        }
                    }
                    proof {
                        assert forall|v: Number| #[trigger]
                            binary_reach(cs, ops, check, value_left, operator, value_right, v) implies best_solutions@[v].number_of_syllables
                            <= m0[value_left].number_of_syllables + m0[value_right].number_of_syllables
                            + word.number_of_syllables by {
                            assert(v == new_value);
                            assert(before.contains_key(v));
                        }
                        assert forall|v: Number| #[trigger]
                            binary_reach(cs, ops, check, value_left, operator, value_right, v)
                                && m0[value_left].number_of_syllables
                                + m0[value_right].number_of_syllables + word.number_of_syllables
                                <= best_solutions@[v].number_of_syllables implies step_wording(
                            cs,
                            ops,
                            check,
                            best_solutions@[v]@,
                        ) by {
                            assert(v == new_value);
                            assert(before.contains_key(v));
                        }
                    }
                }
            },
            Err(_) => {},
        }
        proof {
            assert(no_longer(before, best_solutions@));
            assert(changed_by_steps(cs, ops, check, before, best_solutions@));
            assert forall|x: Number| #[trigger]
                best_solutions@.contains_key(x) && best_solutions@[x] != m0[x] implies step_wording(
                cs,
                ops,
                check,
                best_solutions@[x]@,
            ) by {
                assert(before.contains_key(x));
            }
            assert forall|j: int, v: Number|
                0 <= j < c + 1 && #[trigger] binary_reach(
                    cs,
                    ops,
                    check,
                    candidates@[j].0,
                    operator,
                    candidates@[j].1,
                    v,
                ) && m0[candidates@[j].0].number_of_syllables
                    + m0[candidates@[j].1].number_of_syllables + word.number_of_syllables
                    <= best_solutions@[v].number_of_syllables implies step_wording(
                cs,
                ops,
                check,
                best_solutions@[v]@,
            ) by {
                assert(before.contains_key(v));
                if j < c {
                    assert(best_solutions@.contains_key(v));
                } else {
                    assert(candidates@[j] == (value_left, value_right));
                    assert(plain_domain(cs, check).contains(v));
                }
            }
            assert forall|j: int, v: Number|
                0 <= j < c + 1 && #[trigger] binary_reach(
                    cs,
                    ops,
                    check,
                    candidates@[j].0,
                    operator,
                    candidates@[j].1,
                    v,
                ) implies best_solutions@[v].number_of_syllables
                <= m0[candidates@[j].0].number_of_syllables + m0[candidates@[j].1].number_of_syllables
                + word.number_of_syllables by {
                if j < c {
                    assert(before.contains_key(v));
                } else {
                    assert(candidates@[j] == (value_left, value_right));
                    assert(plain_domain(cs, check).contains(v));
                }
            }
        }
        c = c + 1;
    }
    proof {
        assert forall|l: Number, r: Number, v: Number|
            #[trigger] binary_reach(cs, ops, check, l, operator, r, v) && binary_candidate(
                m0,
                binary_word_syllables(ops, operator),
                operator == BinaryOperator::Add || operator == BinaryOperator::Multiply,
                current_limit - 2,
                current_limit as int,
                l,
                r,
            ) implies best_solutions@[v].number_of_syllables <= m0[l].number_of_syllables
            + m0[r].number_of_syllables + ops[word_index as int].number_of_syllables by {
            assert(candidates@.contains((l, r)));
            let j = choose|j: int| 0 <= j < candidates@.len() && candidates@[j] == (l, r);
            assert(binary_reach(cs, ops, check, candidates@[j].0, operator, candidates@[j].1, v));
        }
        assert forall|l: Number, r: Number, v: Number|
            #[trigger] binary_reach(cs, ops, check, l, operator, r, v) && binary_candidate(
                m0,
                binary_word_syllables(ops, operator),
                operator == BinaryOperator::Add || operator == BinaryOperator::Multiply,
                current_limit - 2,
                current_limit as int,
                l,
                r,
            ) && m0[l].number_of_syllables + m0[r].number_of_syllables
                + ops[word_index as int].number_of_syllables
                <= best_solutions@[v].number_of_syllables implies step_wording(
            cs,
            ops,
            check,
            best_solutions@[v]@,
        ) by {
            assert(candidates@.contains((l, r)));
            let j = choose|j: int| 0 <= j < candidates@.len() && candidates@[j] == (l, r);
            assert(binary_reach(cs, ops, check, candidates@[j].0, operator, candidates@[j].1, v));
        }
    }
    Ghost(t)
}


/// For every value from 0 up to (not including) `check_values_up_to`, a way to say it in as
/// few syllables as the search finds: it starts from the plain number words and, for growing
/// syllable limits, tries the operator words of the dictionary on what it knows so far, the
/// improved entries included.
///
/// Each entry of the result says its own key, in no more syllables than the plain number
/// words do, and is built from the plain number words by operator steps whose values all
/// lie in the checked range (`derived`). A value that a unary operator makes from another
/// one takes no more syllables than the plain words of that other value followed by the
/// operator's word (when those take at least one syllable). Likewise, a value that the first
/// word of a binary operator makes from two others that are still said with their plain
/// words (of at least one syllable each) takes no more syllables than those plain words and
/// the operator's word together (`binary_bound`).
///
/// When every operator word takes at least as many syllables as the dictionary's first word
/// for its operator, and every unary operator word at least one (`words_regular`), the
/// result is closed under one more step: no unary step (`unary_closed`), and no binary step
/// from two entries of at least one syllable each (`binary_closed`), says a value in fewer
/// syllables than the result does, each step measured over the result's own entries with the
/// operator's first word. A tie replaces the plain words too: a value that the result says in
/// fewer syllables than some other value, and that one step on the result says in no more
/// syllables, is said with an operator step (`unary_ties_replaced`, `binary_ties_replaced`).
/// When, besides, every value of the range has plain words of at least one syllable
/// (`plain_words_spoken`), no way to say a value that is built from the plain words by operator
/// steps takes fewer syllables than the result's entry (`fewest_syllables`).
/// Which of two equally long ways is kept depends on the order in which the table is walked.
pub fn optimize(check_values_up_to: Number, dictionary: &Dictionary) -> (r: OptimizedResult)
    requires
        check_values_up_to >= 2 || (check_values_up_to == 1 && find_constant(
            dictionary.constants@,
            0,
        ) is Some),
        forall|n: int| 0 < n < check_values_up_to ==> #[trigger] words_defined(dictionary.constants@, n),
        forall|n: int|
            0 <= n < check_values_up_to && #[trigger] spec_value_to_words(
                dictionary.constants@,
                n,
            ) is Some ==> syllables_in_range(plain_syllables(dictionary.constants@, n)),
        operators_in_range(dictionary.operators@),
        (exists|i: int|
            0 <= i < dictionary.operators@.len() && #[trigger] dictionary.operators@[i].operator
                == Operator::Binary(BinaryOperator::Add)) ==> check_values_up_to <= 1073741824,
    ensures
        r.inner@.dom() == plain_domain(dictionary.constants@, check_values_up_to as int),
        forall|k: Number| #[trigger]
            r.inner@.contains_key(k) ==> r.inner@[k].value == k && r.inner@[k].number_of_syllables
                <= plain_syllables(dictionary.constants@, k as int) && derived(
                dictionary.constants@,
                dictionary.operators@,
                check_values_up_to as int,
                r.inner@[k]@,
            ),
        forall|k: Number, u: UnaryOperator, v: Number|
            #[trigger] unary_reach(
                dictionary.constants@,
                dictionary.operators@,
                check_values_up_to as int,
                k,
                u,
                v,
            ) && plain_syllables(dictionary.constants@, k as int) + unary_word_syllables(
                dictionary.operators@,
                u,
            ) >= 1 ==> r.inner@[v].number_of_syllables <= plain_syllables(
                dictionary.constants@,
                k as int,
            ) + unary_word_syllables(dictionary.operators@, u),
        forall|l: Number, o: BinaryOperator, rhs: Number, v: Number|
            #[trigger] binary_reach(
                dictionary.constants@,
                dictionary.operators@,
                check_values_up_to as int,
                l,
                o,
                rhs,
                v,
            ) ==> binary_bound(dictionary.constants@, dictionary.operators@, r.inner@, l, o, rhs, v),
        words_regular(dictionary.operators@) ==> unary_closed(
            dictionary.constants@,
            dictionary.operators@,
            check_values_up_to as int,
            r.inner@,
        ) && binary_closed(
            dictionary.constants@,
            dictionary.operators@,
            check_values_up_to as int,
            r.inner@,
        ) && unary_ties_replaced(
            dictionary.constants@,
            dictionary.operators@,
            check_values_up_to as int,
            r.inner@,
        ) && binary_ties_replaced(
            dictionary.constants@,
            dictionary.operators@,
            check_values_up_to as int,
            r.inner@,
        ),
        words_regular(dictionary.operators@) && plain_words_spoken(
            dictionary.constants@,
            check_values_up_to as int,
        ) ==> fewest_syllables(
            dictionary.constants@,
            dictionary.operators@,
            check_values_up_to as int,
            r.inner@,
        ),
{
    let ghost cs = dictionary.constants@;
    let ghost ops = dictionary.operators@;
    let ghost check = check_values_up_to as int;

    // Start by filling the table with the plain number words
    let (mut map_of_best_solutions, plain_trail) = plain_solutions(check_values_up_to, dictionary);
    let ghost mut trail = plain_trail@;
    proof {
        assert forall|k: Number| #[trigger] map_of_best_solutions@.contains_key(k) implies syllables_in_range(
            map_of_best_solutions@[k].number_of_syllables as int,
        ) by {
            assert(plain_domain(cs, check).contains(k));
        }
        if check_values_up_to >= 2 {
            assert(plain_domain(cs, check).contains(1));
            assert(map_of_best_solutions@.contains_key(1));
        } else {
            assert(plain_domain(cs, check).contains(0));
            assert(map_of_best_solutions@.contains_key(0));
        }
    }
    let mut max_limit = max_syllables(&map_of_best_solutions);
    let ghost top = max_limit as int;
    proof {
        assert forall|k: Number| #[trigger] plain_domain(cs, check).contains(k) implies plain_syllables(
            cs,
            k as int,
        ) <= top && syllables_in_range(plain_syllables(cs, k as int)) by {
            assert(map_of_best_solutions@.contains_key(k));
        }
        let k = choose|k: Number| #[trigger]
            map_of_best_solutions@.contains_key(k)
                && map_of_best_solutions@[k].number_of_syllables == max_limit;
        assert(plain_domain(cs, check).contains(k));
    }

    proof {
        assert forall|l: Number, o: BinaryOperator, r: Number, v: Number|
            #[trigger] binary_reach(cs, ops, check, l, o, r, v) && pair_total(cs, ops, l, o, r) < 1
                implies binary_bound(cs, ops, map_of_best_solutions@, l, o, r, v) by {
            lemma_find_operator_in(ops, Operator::Binary(o));
            let w = find_operator(ops, Operator::Binary(o))->Some_0;
            let j = choose|j: int| 0 <= j < ops.len() && ops[j] == w;
            assert(syllables_in_range(ops[j].number_of_syllables as int));
        }
    }
    proof {
        if words_regular(ops) {
            assert forall|k: Number, u: UnaryOperator, v: Number|
                #[trigger] unary_reach(cs, ops, check, k, u, v)
                    && map_of_best_solutions@[k].number_of_syllables + unary_word_syllables(ops, u)
                    < 1 implies map_of_best_solutions@[v].number_of_syllables
                <= map_of_best_solutions@[k].number_of_syllables + unary_word_syllables(ops, u) by {
                lemma_find_operator_in(ops, Operator::Unary(u));
                let w = find_operator(ops, Operator::Unary(u))->Some_0;
                let j = choose|j: int| 0 <= j < ops.len() && ops[j] == w;
                assert(ops[j] == w);
            }
            assert forall|k: Number, u: UnaryOperator, v: Number|
                #[trigger] unary_reach(cs, ops, check, k, u, v)
                    && map_of_best_solutions@[k].number_of_syllables + unary_word_syllables(ops, u)
                    < 1 implies step_wording(cs, ops, check, map_of_best_solutions@[v]@) by {
                lemma_find_operator_in(ops, Operator::Unary(u));
                let w = find_operator(ops, Operator::Unary(u))->Some_0;
                let j = choose|j: int| 0 <= j < ops.len() && ops[j] == w;
                assert(ops[j] == w);
            }
            assert forall|l: Number, o: BinaryOperator, r: Number, v: Number|
                #[trigger] binary_reach(cs, ops, check, l, o, r, v)
                    && map_of_best_solutions@[l].number_of_syllables >= 1
                    && map_of_best_solutions@[r].number_of_syllables >= 1
                    && map_of_best_solutions@[l].number_of_syllables
                    + map_of_best_solutions@[r].number_of_syllables + binary_word_syllables(ops, o)
                    < 1 implies step_wording(cs, ops, check, map_of_best_solutions@[v]@) by {
                lemma_find_operator_in(ops, Operator::Binary(o));
                let w = find_operator(ops, Operator::Binary(o))->Some_0;
                let j = choose|j: int| 0 <= j < ops.len() && ops[j] == w;
                assert(ops[j] == w);
                assert(syllables_in_range(ops[j].number_of_syllables as int));
            }
            assert(unary_ties_below(cs, ops, check, map_of_best_solutions@, 1));
            assert(binary_ties_below(cs, ops, check, map_of_best_solutions@, 1));
        }
    }
    let mut current_limit: Number = 2;
    while current_limit <= max_limit
        invariant
            cs == dictionary.constants@,
            ops == dictionary.operators@,
            check == check_values_up_to,
            operators_in_range(ops),
            (exists|i: int|
                0 <= i < ops.len() && #[trigger] ops[i].operator == Operator::Binary(
                    BinaryOperator::Add,
                )) ==> check_values_up_to <= 1073741824,
            sound_solutions(cs, ops, check, map_of_best_solutions@, trail),
            forall|k: Number| #[trigger]
                plain_domain(cs, check).contains(k) ==> plain_syllables(cs, k as int) <= top,
            syllables_in_range(top),
            check_values_up_to >= 2 || (check_values_up_to == 1 && find_constant(cs, 0) is Some),
            max_limit <= top,
            2 <= current_limit <= top + 2,
            forall|x: Number| #[trigger]
                map_of_best_solutions@.contains_key(x) ==> map_of_best_solutions@[x].number_of_syllables
                    <= max_limit,
            forall|k: Number, u: UnaryOperator, v: Number|
                #[trigger] unary_reach(cs, ops, check, k, u, v) && current_limit >= 3 && plain_syllables(
                    cs,
                    k as int,
                ) + unary_word_syllables(ops, u) < current_limit - 1
                    ==> map_of_best_solutions@[v].number_of_syllables <= plain_syllables(cs, k as int)
                    + unary_word_syllables(ops, u),
            forall|l: Number, o: BinaryOperator, r: Number, v: Number|
                #[trigger] binary_reach(cs, ops, check, l, o, r, v) && pair_total(cs, ops, l, o, r)
                    < current_limit - 1 ==> binary_bound(cs, ops, map_of_best_solutions@, l, o, r, v),
            words_regular(ops) ==> unary_closed_below(
                cs,
                ops,
                check,
                map_of_best_solutions@,
                current_limit - 1,
            ) && binary_closed_below(cs, ops, check, map_of_best_solutions@, current_limit - 1)
                && unary_ties_below(cs, ops, check, map_of_best_solutions@, current_limit - 1)
                && binary_ties_below(cs, ops, check, map_of_best_solutions@, current_limit - 1),
        decreases top + 2 - current_limit,
    {
        let ghost at_start = map_of_best_solutions@;
        // Unary operators
        let mut i: usize = 0;
        while i < dictionary.operators.len()
            invariant
                i <= ops.len(),
                cs == dictionary.constants@,
                ops == dictionary.operators@,
                check == check_values_up_to,
                operators_in_range(ops),
                2 <= current_limit <= top,
                syllables_in_range(top),
                sound_solutions(cs, ops, check, map_of_best_solutions@, trail),
                no_longer(at_start, map_of_best_solutions@),
                forall|k: Number, u: UnaryOperator, v: Number|
                    #[trigger] unary_reach(cs, ops, check, k, u, v) && plain_syllables(cs, k as int)
                        + unary_word_syllables(ops, u) < current_limit && (exists|j: int|
                        0 <= j < i && ops[j] == find_operator(ops, Operator::Unary(u))->Some_0)
                        ==> map_of_best_solutions@[v].number_of_syllables <= plain_syllables(
                        cs,
                        k as int,
                    ) + unary_word_syllables(ops, u),
                forall|l: Number, o: BinaryOperator, r: Number, v: Number|
                    #[trigger] binary_reach(cs, ops, check, l, o, r, v) && pair_total(cs, ops, l, o, r)
                        < current_limit - 1 ==> binary_bound(cs, ops, map_of_best_solutions@, l, o, r, v),
                words_regular(ops) ==> unary_closed_below(cs, ops, check, at_start, current_limit - 1)
                    && binary_closed_below(cs, ops, check, at_start, current_limit - 1)
                    && settled_below(at_start, map_of_best_solutions@, current_limit as int)
                    && unary_tried(
                    cs,
                    ops,
                    check,
                    at_start,
                    map_of_best_solutions@,
                    current_limit as int,
                    i as int,
                ) && unary_ties_below(cs, ops, check, at_start, current_limit - 1)
                    && binary_ties_below(cs, ops, check, at_start, current_limit - 1)
                    && unary_ties_tried(
                    cs,
                    ops,
                    check,
                    at_start,
                    map_of_best_solutions@,
                    current_limit as int,
                    i as int,
                ),
                changed_by_steps(cs, ops, check, at_start, map_of_best_solutions@),
            decreases ops.len() - i,
        {
            let ghost before = map_of_best_solutions@;
            match dictionary.operators[i].operator {
                Operator::Unary(operator) => {
                    let next = apply_unary_word(
                        &mut map_of_best_solutions,
                        i,
                        operator,
                        current_limit,
                        check_values_up_to,
                        dictionary,
                        Ghost(trail),
                        Ghost(at_start),
                    );
                    proof {
                        trail = next@;
                        lemma_find_operator_in(ops, Operator::Unary(operator));
                    }
                },
                Operator::Binary(_) => {},
            }
            proof {
                assert forall|k: Number, u: UnaryOperator, v: Number|
                    #[trigger] unary_reach(cs, ops, check, k, u, v) && plain_syllables(cs, k as int)
                        + unary_word_syllables(ops, u) < current_limit && (exists|j: int|
                        0 <= j < i + 1 && ops[j] == find_operator(ops, Operator::Unary(u))->Some_0)
                        implies map_of_best_solutions@[v].number_of_syllables <= plain_syllables(
                        cs,
                        k as int,
                    ) + unary_word_syllables(ops, u) by {
                    assert(before.contains_key(k) && before.contains_key(v));
                    if !(exists|j: int|
                        0 <= j < i && ops[j] == find_operator(ops, Operator::Unary(u))->Some_0) {
                        lemma_find_operator_in(ops, Operator::Unary(u));
                        assert(ops[i as int] == find_operator(ops, Operator::Unary(u))->Some_0);
                        assert(ops[i as int].operator == Operator::Unary(u));
                    }
                }
                assert forall|l: Number, o: BinaryOperator, r: Number, v: Number|
                    #[trigger] binary_reach(cs, ops, check, l, o, r, v) && pair_total(cs, ops, l, o, r)
                        < current_limit - 1 implies binary_bound(cs, ops, map_of_best_solutions@, l, o, r, v) by {
                    assert(before.contains_key(l) && before.contains_key(r) && before.contains_key(v));
                }
            }
            proof {
                if words_regular(ops) {
                    assert forall|k: Number, u: UnaryOperator, v: Number|
                        #[trigger] unary_reach(cs, ops, check, k, u, v) && first_word_before(
                            ops,
                            Operator::Unary(u),
                            i + 1,
                        ) && at_start[k].number_of_syllables + unary_word_syllables(ops, u)
                            < current_limit implies map_of_best_solutions@[v].number_of_syllables
                        <= at_start[k].number_of_syllables + unary_word_syllables(ops, u) by {
                        assert(before.contains_key(k) && before.contains_key(v));
                        if !first_word_before(ops, Operator::Unary(u), i as int) {
                            let j = choose|j: int|
                                0 <= j < i + 1 && ops[j] == find_operator(
                                    ops,
                                    Operator::Unary(u),
                                )->Some_0;
                            assert(j == i);
                            lemma_find_operator_in(ops, Operator::Unary(u));
                            assert(ops[i as int].operator == Operator::Unary(u));
                        }
                    }
                    assert forall|k: Number, u: UnaryOperator, v: Number|
                        #[trigger] unary_reach(cs, ops, check, k, u, v) && first_word_before(
                            ops,
                            Operator::Unary(u),
                            i + 1,
                        ) && at_start[k].number_of_syllables + unary_word_syllables(ops, u)
                            < current_limit && at_start[k].number_of_syllables
                            + unary_word_syllables(ops, u)
                            <= map_of_best_solutions@[v].number_of_syllables implies step_wording(
                        cs,
                        ops,
                        check,
                        map_of_best_solutions@[v]@,
                    ) by {
                        assert(before.contains_key(k) && before.contains_key(v));
                        assert(map_of_best_solutions@.contains_key(v));
                        if !first_word_before(ops, Operator::Unary(u), i as int) {
                            let j = choose|j: int|
                                0 <= j < i + 1 && ops[j] == find_operator(
                                    ops,
                                    Operator::Unary(u),
                                )->Some_0;
                            assert(j == i);
                            lemma_find_operator_in(ops, Operator::Unary(u));
                            assert(ops[i as int].operator == Operator::Unary(u));
                        }
                    }
                }
                assert forall|x: Number| #[trigger]
                    map_of_best_solutions@.contains_key(x) && map_of_best_solutions@[x]
                        != at_start[x] implies step_wording(
                    cs,
                    ops,
                    check,
                    map_of_best_solutions@[x]@,
                ) by {
                    assert(before.contains_key(x));
                }
            }
            i = i + 1;
        }
        proof {
            assert forall|k: Number, u: UnaryOperator, v: Number|
                #[trigger] unary_reach(cs, ops, check, k, u, v) implies exists|j: int|
                    0 <= j < ops.len() && ops[j] == find_operator(ops, Operator::Unary(u))->Some_0 by {
                lemma_find_operator_in(ops, Operator::Unary(u));
                let w = find_operator(ops, Operator::Unary(u))->Some_0;
                let j = choose|j: int| 0 <= j < ops.len() && ops[j] == w;
                assert(ops[j] == w);
            }
        }
        let ghost after_unary = map_of_best_solutions@;

        // Binary operators: try to combine every known value with every other
        let mut i: usize = 0;
        while i < dictionary.operators.len()
            invariant
                i <= ops.len(),
                cs == dictionary.constants@,
                ops == dictionary.operators@,
                check == check_values_up_to,
                operators_in_range(ops),
                (exists|i: int|
                    0 <= i < ops.len() && #[trigger] ops[i].operator == Operator::Binary(
                        BinaryOperator::Add,
                    )) ==> check_values_up_to <= 1073741824,
                2 <= current_limit <= top,
                syllables_in_range(top),
                sound_solutions(cs, ops, check, map_of_best_solutions@, trail),
                no_longer(after_unary, map_of_best_solutions@),
                no_longer(at_start, map_of_best_solutions@),
                words_regular(ops) ==> binary_closed_below(cs, ops, check, at_start, current_limit - 1)
                    && settled_below(at_start, map_of_best_solutions@, current_limit as int)
                    && unary_tried(
                    cs,
                    ops,
                    check,
                    at_start,
                    map_of_best_solutions@,
                    current_limit as int,
                    ops.len() as int,
                ) && binary_tried(
                    cs,
                    ops,
                    check,
                    at_start,
                    map_of_best_solutions@,
                    current_limit as int,
                    i as int,
                ) && binary_ties_below(cs, ops, check, at_start, current_limit - 1)
                    && unary_ties_tried(
                    cs,
                    ops,
                    check,
                    at_start,
                    map_of_best_solutions@,
                    current_limit as int,
                    ops.len() as int,
                ) && binary_ties_tried(
                    cs,
                    ops,
                    check,
                    at_start,
                    map_of_best_solutions@,
                    current_limit as int,
                    i as int,
                ),
                changed_by_steps(cs, ops, check, at_start, map_of_best_solutions@),
                forall|k: Number, u: UnaryOperator, v: Number|
                    #[trigger] unary_reach(cs, ops, check, k, u, v) && plain_syllables(cs, k as int)
                        + unary_word_syllables(ops, u) < current_limit
                        ==> map_of_best_solutions@[v].number_of_syllables <= plain_syllables(
                        cs,
                        k as int,
                    ) + unary_word_syllables(ops, u),
                forall|l: Number, o: BinaryOperator, r: Number, v: Number|
                    #[trigger] binary_reach(cs, ops, check, l, o, r, v) && (pair_total(cs, ops, l, o, r)
                        < current_limit - 1 || (pair_total(cs, ops, l, o, r) == current_limit - 1 && (
                    exists|j: int|
                        0 <= j < i && ops[j] == find_operator(ops, Operator::Binary(o))->Some_0)))
                        ==> binary_bound(cs, ops, map_of_best_solutions@, l, o, r, v),
            decreases ops.len() - i,
        {
            let ghost before = map_of_best_solutions@;
            match dictionary.operators[i].operator {
                Operator::Binary(operator) => {
                    proof {
                        assert(ops[i as int].operator == Operator::Binary(operator));
                    }
                    let next = apply_binary_word(
                        &mut map_of_best_solutions,
                        i,
                        operator,
                        current_limit,
                        check_values_up_to,
                        dictionary,
                        Ghost(trail),
                        Ghost(at_start),
                    );
                    proof {
                        trail = next@;
                        lemma_find_operator_in(ops, Operator::Binary(operator));
                    }
                },
                Operator::Unary(_) => {},
            }
            proof {
                assert forall|l: Number, o: BinaryOperator, r: Number, v: Number|
                    #[trigger] binary_reach(cs, ops, check, l, o, r, v) && (pair_total(cs, ops, l, o, r)
                        < current_limit - 1 || (pair_total(cs, ops, l, o, r) == current_limit - 1 && (
                    exists|j: int|
                        0 <= j < i + 1 && ops[j] == find_operator(ops, Operator::Binary(o))->Some_0)))
                        implies binary_bound(cs, ops, map_of_best_solutions@, l, o, r, v) by {
                    assert(before.contains_key(l) && before.contains_key(r) && before.contains_key(v));
                    if pair_total(cs, ops, l, o, r) == current_limit - 1 && !(exists|j: int|
                        0 <= j < i && ops[j] == find_operator(ops, Operator::Binary(o))->Some_0) {
                        lemma_find_operator_in(ops, Operator::Binary(o));
                        assert(ops[i as int] == find_operator(ops, Operator::Binary(o))->Some_0);
                        assert(ops[i as int].operator == Operator::Binary(o));
                        if map_of_best_solutions@[l].number_of_syllables == plain_syllables(cs, l as int)
                            && map_of_best_solutions@[r].number_of_syllables == plain_syllables(
                            cs,
                            r as int,
                        ) && plain_syllables(cs, l as int) >= 1 && plain_syllables(cs, r as int) >= 1 {
                            let comm = o == BinaryOperator::Add || o == BinaryOperator::Multiply;
                            let w = ops[i as int].number_of_syllables as int;
                            assert(before[l].number_of_syllables == plain_syllables(cs, l as int));
                            assert(before[r].number_of_syllables == plain_syllables(cs, r as int));
                            if binary_candidate(before, w, comm, current_limit - 2, current_limit as int, l, r) {
                                assert(binary_reach(cs, ops, check, l, o, r, v));
                            } else {
                                law_commutative_operators(o, l as int, r as int);
                                assert(binary_candidate(before, w, comm, current_limit - 2, current_limit as int, r, l));
                                assert(binary_reach(cs, ops, check, r, o, l, v));
                            }
                        }
                    }
                }
            }
            proof {
                assert forall|k: Number, u: UnaryOperator, v: Number|
                    #[trigger] unary_reach(cs, ops, check, k, u, v) && plain_syllables(cs, k as int)
                        + unary_word_syllables(ops, u) < current_limit
                        implies map_of_best_solutions@[v].number_of_syllables <= plain_syllables(
                        cs,
                        k as int,
                    ) + unary_word_syllables(ops, u) by {
                    assert(before.contains_key(v));
                }
                if words_regular(ops) {
                    assert forall|k: Number, u: UnaryOperator, v: Number|
                        #[trigger] unary_reach(cs, ops, check, k, u, v) && first_word_before(
                            ops,
                            Operator::Unary(u),
                            ops.len() as int,
                        ) && at_start[k].number_of_syllables + unary_word_syllables(ops, u)
                            < current_limit implies map_of_best_solutions@[v].number_of_syllables
                        <= at_start[k].number_of_syllables + unary_word_syllables(ops, u) by {
                        assert(before.contains_key(v));
                    }
                    assert forall|l: Number, o: BinaryOperator, r: Number, v: Number|
                        #[trigger] binary_reach(cs, ops, check, l, o, r, v) && first_word_before(
                            ops,
                            Operator::Binary(o),
                            i + 1,
                        ) && map_of_best_solutions@[l].number_of_syllables
                            == at_start[l].number_of_syllables
                            && map_of_best_solutions@[r].number_of_syllables
                            == at_start[r].number_of_syllables && at_start[l].number_of_syllables
                            >= 1 && at_start[r].number_of_syllables >= 1
                            && at_start[l].number_of_syllables + at_start[r].number_of_syllables
                            + binary_word_syllables(ops, o) == current_limit - 1
                        implies map_of_best_solutions@[v].number_of_syllables
                        <= current_limit - 1 by {
                        assert(before.contains_key(l) && before.contains_key(r)
                            && before.contains_key(v));
                        assert(at_start.contains_key(l) && at_start.contains_key(r));
                        if !first_word_before(ops, Operator::Binary(o), i as int) {
                            let j = choose|j: int|
                                0 <= j < i + 1 && ops[j] == find_operator(
                                    ops,
                                    Operator::Binary(o),
                                )->Some_0;
                            assert(j == i);
                            lemma_find_operator_in(ops, Operator::Binary(o));
                            assert(ops[i as int].operator == Operator::Binary(o));
                            let comm = o == BinaryOperator::Add || o == BinaryOperator::Multiply;
                            let w = binary_word_syllables(ops, o);
                            if binary_candidate(
                                before,
                                w,
                                comm,
                                current_limit - 2,
                                current_limit as int,
                                l,
                                r,
                            ) {
                                assert(binary_reach(cs, ops, check, l, o, r, v));
                            } else {
                                law_commutative_operators(o, l as int, r as int);
                                assert(binary_candidate(
                                    before,
                                    w,
                                    comm,
                                    current_limit - 2,
                                    current_limit as int,
                                    r,
                                    l,
                                ));
                                assert(binary_reach(cs, ops, check, r, o, l, v));
                            }
                        }
                    }
                    assert forall|k: Number, u: UnaryOperator, v: Number|
                        #[trigger] unary_reach(cs, ops, check, k, u, v) && first_word_before(
                            ops,
                            Operator::Unary(u),
                            ops.len() as int,
                        ) && at_start[k].number_of_syllables + unary_word_syllables(ops, u)
                            < current_limit && at_start[k].number_of_syllables
                            + unary_word_syllables(ops, u)
                            <= map_of_best_solutions@[v].number_of_syllables implies step_wording(
                        cs,
                        ops,
                        check,
                        map_of_best_solutions@[v]@,
                    ) by {
                        assert(before.contains_key(v));
                        assert(map_of_best_solutions@.contains_key(v));
                    }
                    assert forall|l: Number, o: BinaryOperator, r: Number, v: Number|
                        #[trigger] binary_reach(cs, ops, check, l, o, r, v) && first_word_before(
                            ops,
                            Operator::Binary(o),
                            i + 1,
                        ) && map_of_best_solutions@[l].number_of_syllables
                            == at_start[l].number_of_syllables
                            && map_of_best_solutions@[r].number_of_syllables
                            == at_start[r].number_of_syllables && at_start[l].number_of_syllables
                            >= 1 && at_start[r].number_of_syllables >= 1
                            && at_start[l].number_of_syllables + at_start[r].number_of_syllables
                            + binary_word_syllables(ops, o) == current_limit - 1 && current_limit - 1
                            <= map_of_best_solutions@[v].number_of_syllables implies step_wording(
                        cs,
                        ops,
                        check,
                        map_of_best_solutions@[v]@,
                    ) by {
                        assert(before.contains_key(l) && before.contains_key(r)
                            && before.contains_key(v));
                        assert(map_of_best_solutions@.contains_key(v));
                        assert(at_start.contains_key(l) && at_start.contains_key(r));
                        if !first_word_before(ops, Operator::Binary(o), i as int) {
                            let j = choose|j: int|
                                0 <= j < i + 1 && ops[j] == find_operator(
                                    ops,
                                    Operator::Binary(o),
                                )->Some_0;
                            assert(j == i);
                            lemma_find_operator_in(ops, Operator::Binary(o));
                            assert(ops[i as int].operator == Operator::Binary(o));
                            let comm = o == BinaryOperator::Add || o == BinaryOperator::Multiply;
                            let w = binary_word_syllables(ops, o);
                            if binary_candidate(
                                before,
                                w,
                                comm,
                                current_limit - 2,
                                current_limit as int,
                                l,
                                r,
                            ) {
                                assert(binary_reach(cs, ops, check, l, o, r, v));
                            } else {
                                law_commutative_operators(o, l as int, r as int);
                                assert(binary_candidate(
                                    before,
                                    w,
                                    comm,
                                    current_limit - 2,
                                    current_limit as int,
                                    r,
                                    l,
                                ));
                                assert(binary_reach(cs, ops, check, r, o, l, v));
                            }
                        }
                    }
                }
                assert forall|x: Number| #[trigger]
                    map_of_best_solutions@.contains_key(x) && map_of_best_solutions@[x]
                        != at_start[x] implies step_wording(
                    cs,
                    ops,
                    check,
                    map_of_best_solutions@[x]@,
                ) by {
                    assert(before.contains_key(x));
                }
            }
            i = i + 1;
        }

        proof {
            assert forall|l: Number, o: BinaryOperator, r: Number, v: Number|
                #[trigger] binary_reach(cs, ops, check, l, o, r, v) && pair_total(cs, ops, l, o, r)
                    < current_limit implies binary_bound(cs, ops, map_of_best_solutions@, l, o, r, v) by {
                lemma_find_operator_in(ops, Operator::Binary(o));
                let w = find_operator(ops, Operator::Binary(o))->Some_0;
                let j = choose|j: int| 0 <= j < ops.len() && ops[j] == w;
                assert(ops[j] == w);
            }
        }
        proof {
            if words_regular(ops) {
                let m = map_of_best_solutions@;
                assert forall|k: Number, u: UnaryOperator, v: Number|
                    #[trigger] unary_reach(cs, ops, check, k, u, v) && m[k].number_of_syllables
                        + unary_word_syllables(ops, u) < current_limit implies m[v].number_of_syllables
                    <= m[k].number_of_syllables + unary_word_syllables(ops, u) by {
                    lemma_find_operator_in(ops, Operator::Unary(u));
                    let w = find_operator(ops, Operator::Unary(u))->Some_0;
                    let j = choose|j: int| 0 <= j < ops.len() && ops[j] == w;
                    assert(ops[j] == w);
                    assert(first_word_before(ops, Operator::Unary(u), ops.len() as int));
                    assert(m.contains_key(k) && at_start.contains_key(k));
                }
                assert forall|l: Number, o: BinaryOperator, r: Number, v: Number|
                    #[trigger] binary_reach(cs, ops, check, l, o, r, v) && m[l].number_of_syllables
                        >= 1 && m[r].number_of_syllables >= 1 && m[l].number_of_syllables
                        + m[r].number_of_syllables + binary_word_syllables(ops, o) < current_limit
                        implies m[v].number_of_syllables <= m[l].number_of_syllables
                        + m[r].number_of_syllables + binary_word_syllables(ops, o) by {
                    assert(m.contains_key(l) && m.contains_key(r) && m.contains_key(v));
                    assert(at_start.contains_key(l) && at_start.contains_key(r));
                    lemma_find_operator_in(ops, Operator::Binary(o));
                    let w = find_operator(ops, Operator::Binary(o))->Some_0;
                    let j = choose|j: int| 0 <= j < ops.len() && ops[j] == w;
                    assert(ops[j] == w);
                    assert(first_word_before(ops, Operator::Binary(o), ops.len() as int));
                }
                assert forall|k: Number, u: UnaryOperator, v: Number|
                    #[trigger] unary_reach(cs, ops, check, k, u, v) && m[k].number_of_syllables
                        + unary_word_syllables(ops, u) < current_limit && m[k].number_of_syllables
                        + unary_word_syllables(ops, u) <= m[v].number_of_syllables implies step_wording(
                    cs,
                    ops,
                    check,
                    m[v]@,
                ) by {
                    lemma_find_operator_in(ops, Operator::Unary(u));
                    let w = find_operator(ops, Operator::Unary(u))->Some_0;
                    let j = choose|j: int| 0 <= j < ops.len() && ops[j] == w;
                    assert(ops[j] == w);
                    assert(first_word_before(ops, Operator::Unary(u), ops.len() as int));
                    assert(m.contains_key(k) && at_start.contains_key(k));
                }
                assert forall|l: Number, o: BinaryOperator, r: Number, v: Number|
                    #[trigger] binary_reach(cs, ops, check, l, o, r, v) && m[l].number_of_syllables
                        >= 1 && m[r].number_of_syllables >= 1 && m[l].number_of_syllables
                        + m[r].number_of_syllables + binary_word_syllables(ops, o) < current_limit
                        && m[l].number_of_syllables + m[r].number_of_syllables
                        + binary_word_syllables(ops, o) <= m[v].number_of_syllables
                        implies step_wording(cs, ops, check, m[v]@) by {
                    assert(m.contains_key(l) && m.contains_key(r) && m.contains_key(v));
                    assert(at_start.contains_key(l) && at_start.contains_key(r));
                    lemma_find_operator_in(ops, Operator::Binary(o));
                    let w = find_operator(ops, Operator::Binary(o))->Some_0;
                    let j = choose|j: int| 0 <= j < ops.len() && ops[j] == w;
                    assert(ops[j] == w);
                    assert(first_word_before(ops, Operator::Binary(o), ops.len() as int));
                }
            }
        }
        current_limit = current_limit + 1;

        // Update the limit, as a lower one may have been reached
        proof {
            if check_values_up_to >= 2 {
                assert(plain_domain(cs, check).contains(1));
                assert(map_of_best_solutions@.contains_key(1));
            } else {
                assert(plain_domain(cs, check).contains(0));
                assert(map_of_best_solutions@.contains_key(0));
            }
        }
        max_limit = max_syllables(&map_of_best_solutions);
        proof {
            let k = choose|k: Number| #[trigger]
                map_of_best_solutions@.contains_key(k)
                    && map_of_best_solutions@[k].number_of_syllables == max_limit;
            assert(plain_domain(cs, check).contains(k));
        }
    }
    proof {
        assert forall|k: Number, u: UnaryOperator, v: Number|
            #[trigger] unary_reach(cs, ops, check, k, u, v) && plain_syllables(cs, k as int)
                + unary_word_syllables(ops, u) >= 1 implies map_of_best_solutions@[v].number_of_syllables
            <= plain_syllables(cs, k as int) + unary_word_syllables(ops, u) by {
            assert(map_of_best_solutions@.contains_key(v));
        }
        assert forall|l: Number, o: BinaryOperator, r: Number, v: Number|
            #[trigger] binary_reach(cs, ops, check, l, o, r, v) implies binary_bound(
            cs,
            ops,
            map_of_best_solutions@,
            l,
            o,
            r,
            v,
        ) by {
            assert(map_of_best_solutions@.contains_key(v));
        }
    }
    proof {
        if words_regular(ops) {
            let m = map_of_best_solutions@;
            assert forall|k: Number, u: UnaryOperator, v: Number|
                #[trigger] unary_reach(cs, ops, check, k, u, v) implies m[v].number_of_syllables
                <= m[k].number_of_syllables + unary_word_syllables(ops, u) by {
                assert(m.contains_key(v));
            }
            assert forall|l: Number, o: BinaryOperator, r: Number, v: Number|
                #[trigger] binary_reach(cs, ops, check, l, o, r, v) && m[l].number_of_syllables
                    >= 1 && m[r].number_of_syllables >= 1 implies m[v].number_of_syllables
                <= m[l].number_of_syllables + m[r].number_of_syllables + binary_word_syllables(
                ops,
                o,
            ) by {
                assert(m.contains_key(v));
            }
            assert forall|k: Number, u: UnaryOperator, v: Number|
                #[trigger] unary_reach(cs, ops, check, k, u, v) && m[k].number_of_syllables
                    + unary_word_syllables(ops, u) <= m[v].number_of_syllables && (exists|x: Number|
                    m.contains_key(x) && m[v].number_of_syllables < m[x].number_of_syllables)
                    implies step_wording(cs, ops, check, m[v]@) by {
                let x = choose|x: Number|
                    m.contains_key(x) && m[v].number_of_syllables < m[x].number_of_syllables;
                assert(m.contains_key(x));
            }
            assert forall|l: Number, o: BinaryOperator, r: Number, v: Number|
                #[trigger] binary_reach(cs, ops, check, l, o, r, v) && m[l].number_of_syllables
                    >= 1 && m[r].number_of_syllables >= 1 && m[l].number_of_syllables
                    + m[r].number_of_syllables + binary_word_syllables(ops, o)
                    <= m[v].number_of_syllables && (exists|x: Number|
                    m.contains_key(x) && m[v].number_of_syllables < m[x].number_of_syllables)
                    implies step_wording(cs, ops, check, m[v]@) by {
                let x = choose|x: Number|
                    m.contains_key(x) && m[v].number_of_syllables < m[x].number_of_syllables;
                assert(m.contains_key(x));
            }
        }
        if words_regular(ops) && plain_words_spoken(cs, check) {
            let m = map_of_best_solutions@;
            assert forall|k: Number| #[trigger] m.contains_key(k) implies m[k].number_of_syllables
                <= plain_syllables(cs, k as int) && m[k].number_of_syllables >= 1 by {
                assert(trail.contains(m[k]@));
                let j = choose|j: int| 0 <= j < trail.len() && trail[j] == m[k]@;
                lemma_derivation_spoken(cs, ops, check, trail, j);
            }
            assert forall|t: (int, Seq<char>, int)| #[trigger]
                derived(cs, ops, check, t) implies m[t.0 as Number].number_of_syllables <= t.2 by {
                let tr = choose|tr: Seq<(int, Seq<char>, int)>|
                    #[trigger] derivation(cs, ops, check, tr) && tr.contains(t);
                let j = choose|j: int| 0 <= j < tr.len() && tr[j] == t;
                lemma_closed_is_fewest(cs, ops, check, m, tr, j);
            }
        }
        assert forall|k: Number| #[trigger] map_of_best_solutions@.contains_key(k) implies derived(
            cs,
            ops,
            check,
            map_of_best_solutions@[k]@,
        ) by {
            assert(derivation(cs, ops, check, trail) && trail.contains(map_of_best_solutions@[k]@));
        }
    }
    OptimizedResult { inner: map_of_best_solutions }
}

} // verus!

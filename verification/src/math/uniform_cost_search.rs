// Searching, for one number, the fewest syllables in which the dictionary can say it.
//
// Uniform cost search: the cheapest state of the frontier is expanded first, and every
// state it leads to that was not seen yet joins the frontier.
use vstd::prelude::*;
use vstd::set_lib::{lemma_int_range, lemma_len_subset, set_int_range};

use crate::math::expression::{BinaryOperator, Number, UnaryOperator};
use crate::math::integer::{
    div_i32, fits_i32, is_isqrt, isqrt_i32, rem_i32,
};
use crate::math::optimize::{
    lemma_not_in_prefix, lemma_push_contains, lemma_push_no_duplicates, operators_in_range, plain_syllables,
    syllables_in_range,
};
use crate::syllables::counter::{
    spec_value_to_words, value_to_words, words_defined, NumberRepresentation,
};
use crate::syllables::dictionary::{
    find_constant, Dictionary, DictionaryConstant, DictionaryOperator, Operator,
};

verus! {

/// A divisor `d` of `x` pairs up with its co-divisor `x / d`.
proof fn lemma_codivisor(x: int, d: int)
    requires
        1 <= d <= x,
        x % d == 0,
    ensures
        x == d * (x / d),
        1 <= x / d <= x,
        x % (x / d) == 0,
        x / (x / d) == d,
{
    vstd::arithmetic::div_mod::lemma_fundamental_div_mod(x, d);
    let q = x / d;
    assert(x == d * q);
    assert(1 <= q <= x) by (nonlinear_arith)
        requires
            x == d * q,
            1 <= d <= x,
    {
        if q < 1 {
            assert(d * q <= 0);
        }
    }
    vstd::arithmetic::div_mod::lemma_fundamental_div_mod_converse(x, q, d, 0);
}

/// For a divisor `d` of `x` and the integer square root `s` of `x`: when `d` is at most `s`
/// its co-divisor is at least `s`, and otherwise its co-divisor is at most `s`.
proof fn lemma_divisor_sides(x: int, s: int, d: int)
    requires
        0 <= s,
        s * s <= x < (s + 1) * (s + 1),
        1 <= d <= x,
        x % d == 0,
    ensures
        d <= s ==> x / d >= s,
        d > s ==> x / d <= s,
{
    lemma_codivisor(x, d);
    let q = x / d;
    if d <= s {
        assert(q >= s) by (nonlinear_arith)
            requires
                x == d * q,
                1 <= d <= s,
                s * s <= x,
        {
            if q < s {
                assert(d * q <= s * q);
                assert(s * q < s * s);
            }
        }
    } else {
        assert(q <= s) by (nonlinear_arith)
            requires
                x == d * q,
                d >= s + 1,
                x < (s + 1) * (s + 1),
                0 <= s,
                q >= 1,
        {
            if q >= s + 1 {
                assert(d * q >= (s + 1) * q);
                assert((s + 1) * q >= (s + 1) * (s + 1));
            }
        }
    }
}

/// The positive divisors of `x`, each once.
pub fn divisors(x: Number) -> (r: Vec<Number>)
    requires
        x >= 0,
    ensures
        forall|d: Number| #[trigger] r@.contains(d) <==> (1 <= d <= x && x % d == 0),
        r@.no_duplicates(),
{
    let mut result: Vec<Number> = Vec::new();
    let root = isqrt_i32(x);
    let ghost s = root as int;
    let mut i: Number = 1;
    proof {
        assert forall|d: Number| #[trigger]
            result@.contains(d) <==> (1 <= d <= x && x % d == 0 && (d < i || x / d < i)) by {
            if 1 <= d <= x && x % d == 0 {
                lemma_codivisor(x as int, d as int);
            }
        }
    }
    while i <= root
        invariant
            x >= 0,
            s == root,
            0 <= s <= 46340,
            1 <= i <= root + 1,
            s * s <= x < (s + 1) * (s + 1),
            forall|d: Number| #[trigger]
                result@.contains(d) <==> (1 <= d <= x && x % d == 0 && (d < i || x / d < i)),
            result@.no_duplicates(),
        decreases root + 1 - i,
    {
        assert(i <= x) by (nonlinear_arith)
            requires
                1 <= i <= s,
                s * s <= x,
        ;
        let ghost before = result@;
        if rem_i32(x, i) == 0 {
            let co = div_i32(x, i);
            proof {
                if x == 0 {
                    assert(false);
                }
                assert(x % i == 0);
                assert(co == x / i);
                lemma_codivisor(x as int, i as int);
                lemma_divisor_sides(x as int, s, i as int);
                assert(!result@.contains(i));
            }
            result.push(i);
            proof {
                lemma_push_contains(before, i);
            }
            if i != co {
                proof {
                    assert(!result@.contains(co));
                }
                let ghost middle = result@;
                result.push(co);
                proof {
                    lemma_push_contains(middle, co);
                }
            }
            proof {
                assert forall|d: Number| #[trigger]
                    result@.contains(d) <==> (1 <= d <= x && x % d == 0 && (d < i + 1 || x / d < i
                        + 1)) by {
                    if 1 <= d <= x && x % d == 0 {
                        lemma_codivisor(x as int, d as int);
                    }
                }
            }
        } else {
            proof {
                if x != 0 {
                    assert(x % i != 0);
                }
                assert forall|d: Number| #[trigger]
                    result@.contains(d) <==> (1 <= d <= x && x % d == 0 && (d < i + 1 || x / d < i
                        + 1)) by {
                    if 1 <= d <= x && x % d == 0 {
                        lemma_codivisor(x as int, d as int);
                    }
                }
            }
        }
        i = i + 1;
    }
    proof {
        assert forall|d: Number| (1 <= d <= x && x % d == 0) implies #[trigger] result@.contains(d) by {
            lemma_divisor_sides(x as int, s, d as int);
        }
    }
    result
}


/// The `k`-th multiple of `a`.
pub open spec fn multiple(a: int, k: int) -> int {
    a * k
}

/// Past the first multiple `a * k` of `a` that is above `max_lhs`, where the one before it
/// was not, no multiple is at most `max_lhs` while `a` is.
proof fn lemma_multiples_past(a: int, max_lhs: int, k: int)
    requires
        k >= 1,
        a * k > max_lhs,
        k >= 2 ==> a * (k - 1) <= max_lhs,
    ensures
        forall|j: int| j >= k ==> !(a <= max_lhs && #[trigger] multiple(a, j) <= max_lhs),
{
    assert forall|j: int| j >= k implies !(a <= max_lhs && #[trigger] multiple(a, j) <= max_lhs) by {
        if a > 0 {
            assert(a * j >= a * k) by (nonlinear_arith)
                requires
                    a > 0,
                    j >= k,
            ;
        } else if k >= 2 {
            assert(a * k == a * (k - 1) + a) by (nonlinear_arith);
        }
    }
}

/// Once a multiple `a * k` leaves the `i32` range, so do all later ones.
proof fn lemma_multiples_overflow(a: int, k: int)
    requires
        k >= 1,
        !fits_i32(a * k),
    ensures
        forall|j: int| j >= k ==> !fits_i32(#[trigger] multiple(a, j)),
{
    assert forall|j: int| j >= k implies !fits_i32(#[trigger] multiple(a, j)) by {
        if a > 0 {
            assert(a * j >= a * k && a * k > 0) by (nonlinear_arith)
                requires
                    a > 0,
                    j >= k,
                    k >= 1,
            ;
        } else if a < 0 {
            assert(a * j <= a * k && a * k < 0) by (nonlinear_arith)
                requires
                    a < 0,
                    j >= k,
                    k >= 1,
            ;
        } else {
            assert(a * k == 0) by (nonlinear_arith)
                requires
                    a == 0,
            ;
        }
    }
}

/// While the multiples of `a` stay within `i32` and at most `max_lhs`, the multiplier `k`
/// stays below `i32::MAX`.
proof fn lemma_counter_room(a: int, max_lhs: int, k: int)
    requires
        k >= 1,
        fits_i32(a * k),
        a * k <= max_lhs,
        max_lhs <= i32::MAX,
        a >= 2 || a <= -2 || (a == 1 && max_lhs < i32::MAX),
    ensures
        k < i32::MAX,
{
    if a >= 2 {
        assert(a * k >= 2 * k) by (nonlinear_arith)
            requires
                a >= 2,
                k >= 1,
        ;
    } else if a <= -2 {
        assert(a * k <= -2 * k) by (nonlinear_arith)
            requires
                a <= -2,
                k >= 1,
        ;
    }
}

/// `lhs` has no plain number words, or they take fewer than `max_syllables` syllables.
pub open spec fn short_enough(cs: Seq<DictionaryConstant>, lhs: int, max_syllables: int) -> bool {
    !(spec_value_to_words(cs, lhs) is Some && plain_syllables(cs, lhs) >= max_syllables)
}

/// The left operands that the search tries for `lhs op rhs == result`, with left operands
/// up to `max_lhs`:
/// - `+`: from 1 to `result`, when short enough;
/// - `-`: from `result` to `max_lhs`, when short enough;
/// - `*`: the positive divisors of `result` up to `max_lhs`;
/// - `/`: the positive multiples of `result` up to `max_lhs` (none when `result` itself is
///   above `max_lhs`);
/// - `^`: from 1 to `max_lhs`.
pub open spec fn lhs_candidate(
    cs: Seq<DictionaryConstant>,
    operator: BinaryOperator,
    result: int,
    max_syllables: int,
    max_lhs: int,
    lhs: int,
) -> bool {
    match operator {
        BinaryOperator::Add => 1 <= lhs <= result && short_enough(cs, lhs, max_syllables),
        BinaryOperator::Subtract => result <= lhs <= max_lhs && short_enough(cs, lhs, max_syllables),
        BinaryOperator::Multiply => 1 <= lhs <= result && result % lhs == 0 && lhs <= max_lhs,
        BinaryOperator::Divide => result <= max_lhs && lhs <= max_lhs && fits_i32(lhs) && exists|
            k: int,
        | k >= 1 && lhs == #[trigger] multiple(result, k),
        BinaryOperator::Exponent => 1 <= lhs <= max_lhs,
    }
}

/// The inputs on which `get_lhs_candidates` finishes without a panic: the number words it
/// looks up exist, `*` is asked for the divisors of a non-negative number, and the multiples
/// that `/` walks through stop before the counter overflows.
pub open spec fn lhs_candidates_defined(
    cs: Seq<DictionaryConstant>,
    operator: BinaryOperator,
    result: int,
    max_lhs: int,
) -> bool {
    match operator {
        BinaryOperator::Add => forall|n: int| 1 <= n <= result ==> #[trigger] words_defined(cs, n),
        BinaryOperator::Subtract => forall|n: int|
            result <= n <= max_lhs && n != 0 ==> #[trigger] words_defined(cs, n),
        BinaryOperator::Multiply => result >= 0,
        BinaryOperator::Divide => result > max_lhs || result >= 2 || result <= -2 || (result == 1
            && max_lhs < i32::MAX),
        BinaryOperator::Exponent => true,
    }
}

/// The numbers of `s` grow strictly, so each occurs once.
pub open spec fn increasing(s: Seq<Number>) -> bool {
    forall|i: int, j: int| 0 <= i < j < s.len() ==> s[i] < s[j]
}

/// The numbers of `s` shrink strictly, so each occurs once.
pub open spec fn decreasing(s: Seq<Number>) -> bool {
    forall|i: int, j: int| 0 <= i < j < s.len() ==> s[i] > s[j]
}

/// Later multiples of a positive number are larger, of a negative one smaller.
proof fn lemma_multiples_ordered(a: int, i: int, j: int)
    requires
        1 <= i < j,
    ensures
        a > 0 ==> multiple(a, i) < multiple(a, j),
        a < 0 ==> multiple(a, i) > multiple(a, j),
{
    if a > 0 {
        assert(a * i < a * j) by (nonlinear_arith)
            requires
                a > 0,
                i < j,
        ;
    } else if a < 0 {
        assert(a * i > a * j) by (nonlinear_arith)
            requires
                a < 0,
                i < j,
        ;
    }
}

/// The first multiples of `a`, in order, grow when `a` is positive and shrink when it is
/// negative.
proof fn lemma_multiples_in_order(a: int, s: Seq<Number>)
    requires
        forall|i: int| 0 <= i < s.len() ==> #[trigger] s[i] == multiple(a, i + 1),
    ensures
        a > 0 ==> increasing(s),
        a < 0 ==> decreasing(s),
{
    assert forall|i: int, j: int| 0 <= i < j < s.len() implies (a > 0 ==> s[i] < s[j]) && (a < 0
        ==> s[i] > s[j]) by {
        lemma_multiples_ordered(a, i + 1, j + 1);
    }
}

/// The numbers from `from` to `to` (both included) whose plain number words are short enough
/// (or that have none): the left operands tried for `+` and `-`.
fn short_lhs_in_range(
    from: Number,
    to: Number,
    max_number_of_syllables: Number,
    dictionary: &Dictionary,
) -> (r: Vec<Number>)
    requires
        forall|n: int| from <= n <= to && n != 0 ==> #[trigger] words_defined(dictionary.constants@, n),
    ensures
        forall|lhs: Number| #[trigger]
            r@.contains(lhs) <==> (from <= lhs <= to && short_enough(
                dictionary.constants@,
                lhs as int,
                max_number_of_syllables as int,
            )),
        increasing(r@),
{
    let ghost cs = dictionary.constants@;
    let mut candidates: Vec<Number> = Vec::new();
    let mut lhs: i64 = from as i64;
    while lhs <= to as i64
        invariant
            cs == dictionary.constants@,
            from <= lhs,
            lhs <= to as int + 1 || lhs == from,
            forall|n: int| from <= n <= to && n != 0 ==> #[trigger] words_defined(cs, n),
            forall|x: Number| #[trigger]
                candidates@.contains(x) <==> (from <= x < lhs && short_enough(
                    cs,
                    x as int,
                    max_number_of_syllables as int,
                )),
            increasing(candidates@),
            forall|i: int| 0 <= i < candidates@.len() ==> candidates@[i] < lhs,
        decreases to as int + 1 - lhs,
    {
        let value = lhs as Number;
        let ghost before = candidates@;
        let keep = match value_to_words(value, dictionary) {
            Some(lhs_representation) => lhs_representation.number_of_syllables
                < max_number_of_syllables,
            None => true,
        };
        if keep {
            candidates.push(value);
        }
        proof {
            lemma_push_contains(before, value);
        }
        lhs = lhs + 1;
    }
    candidates
}

/// The left operands that the search tries for `lhs op rhs == result` (see `lhs_candidate`).
pub fn get_lhs_candidates(
    operator: &BinaryOperator,
    result: Number,
    max_number_of_syllables: Number,
    max_lhs: Number,
    dictionary: &Dictionary,
) -> (r: Vec<Number>)
    requires
        lhs_candidates_defined(dictionary.constants@, *operator, result as int, max_lhs as int),
    ensures
        forall|lhs: Number| #[trigger]
            r@.contains(lhs) <==> lhs_candidate(
                dictionary.constants@,
                *operator,
                result as int,
                max_number_of_syllables as int,
                max_lhs as int,
                lhs as int,
            ),
        *operator == BinaryOperator::Multiply ==> r@.no_duplicates(),
        *operator != BinaryOperator::Multiply && !(*operator == BinaryOperator::Divide && result < 0)
            ==> increasing(r@),
        *operator == BinaryOperator::Divide && result < 0 ==> decreasing(r@),
{
    let ghost cs = dictionary.constants@;
    match operator {
        BinaryOperator::Add => {
            // lhs + rhs = result
            short_lhs_in_range(1, result, max_number_of_syllables, dictionary)
        },
        BinaryOperator::Subtract => {
            // lhs - rhs = result
            // => lhs = result + rhs
            // => lhs >= result
            short_lhs_in_range(result, max_lhs, max_number_of_syllables, dictionary)
        },
        BinaryOperator::Multiply => {
            // lhs * rhs = result
            // => lhs must be a divisor of result
            let mut candidates: Vec<Number> = Vec::new();
            let all = divisors(result);
            let mut j: usize = 0;
            while j < all.len()
                invariant
                    j <= all@.len(),
                    result >= 0,
                    forall|d: Number| #[trigger] all@.contains(d) <==> (1 <= d <= result && result % d == 0),
                    forall|x: Number| #[trigger]
                        candidates@.contains(x) <==> (all@.take(j as int).contains(x) && x <= max_lhs),
                    all@.no_duplicates(),
                    candidates@.no_duplicates(),
                decreases all.len() - j,
            {
                let d = all[j];
                let ghost before = candidates@;
                proof {
                    lemma_not_in_prefix(all@, j as int);
                    assert(all@.take(j + 1) =~= all@.take(j as int).push(d));
                    lemma_push_contains(all@.take(j as int), d);
                }
                if d <= max_lhs {
                    candidates.push(d);
                    proof {
                        lemma_push_no_duplicates(before, d);
                    }
                }
                proof {
                    lemma_push_contains(before, d);
                }
                j = j + 1;
            }
            proof {
                assert(all@.take(j as int) =~= all@);
            }
            candidates
        },
        BinaryOperator::Divide => {
            // lhs / rhs = result
            // => lhs must be a multiple of result
            let mut candidates: Vec<Number> = Vec::new();
            let mut k: Number = 1;
            loop
                invariant
                    1 <= k,
                    result > max_lhs || result >= 2 || result <= -2 || (result == 1 && max_lhs
                        < i32::MAX),
                    k >= 2 ==> result <= max_lhs,
                    k >= 2 ==> result * (k - 1) <= max_lhs,
                    forall|x: Number| #[trigger]
                        candidates@.contains(x) <==> (result <= max_lhs && x <= max_lhs && exists|
                            j: int,
                        | 1 <= j < k && x == #[trigger] multiple(result as int, j)),
                    candidates@.len() == k - 1,
                    forall|i: int|
                        0 <= i < candidates@.len() ==> #[trigger] candidates@[i] == multiple(
                            result as int,
                            i + 1,
                        ),
                ensures
                    result > 0 ==> increasing(candidates@),
                    result < 0 ==> decreasing(candidates@),
                    forall|x: Number| #[trigger]
                        candidates@.contains(x) <==> lhs_candidate(
                            cs,
                            BinaryOperator::Divide,
                            result as int,
                            max_number_of_syllables as int,
                            max_lhs as int,
                            x as int,
                        ),
                decreases i32::MAX - k,
            {
                match result.checked_mul(k) {
                    Some(lhs) => {
                        if lhs > max_lhs {
                            proof {
                                lemma_multiples_past(result as int, max_lhs as int, k as int);
                                assert forall|x: Number| #[trigger]
                                    candidates@.contains(x) <==> lhs_candidate(
                                        cs,
                                        BinaryOperator::Divide,
                                        result as int,
                                        max_number_of_syllables as int,
                                        max_lhs as int,
                                        x as int,
                                    ) by {
                                    if lhs_candidate(
                                        cs,
                                        BinaryOperator::Divide,
                                        result as int,
                                        max_number_of_syllables as int,
                                        max_lhs as int,
                                        x as int,
                                    ) {
                                        let j = choose|j: int|
                                            j >= 1 && x == #[trigger] multiple(result as int, j);
                                        if j >= k {
                                            assert(!(result <= max_lhs && multiple(result as int, j)
                                                <= max_lhs));
                                        }
                                    }
                                }
                            }
                            proof {
                        lemma_multiples_in_order(result as int, candidates@);
                    }
                    break;
                        }
                        let ghost before = candidates@;
                        candidates.push(lhs);
                        proof {
                            lemma_push_contains(before, lhs);
                            assert(lhs == multiple(result as int, k as int));
                            lemma_counter_room(result as int, max_lhs as int, k as int);
                            assert forall|x: Number| #[trigger]
                                candidates@.contains(x) <==> (result <= max_lhs && x <= max_lhs
                                    && exists|j: int|
                                    1 <= j < k + 1 && x == #[trigger] multiple(result as int, j)) by {
                                if x != lhs && exists|j: int|
                                    1 <= j < k + 1 && x == #[trigger] multiple(result as int, j) {
                                    let j = choose|j: int|
                                        1 <= j < k + 1 && x == #[trigger] multiple(result as int, j);
                                    assert(j < k);
                                }
                            }
                        }
                        k = k + 1;
                    },
                    None => {
                        proof {
                            lemma_multiples_overflow(result as int, k as int);
                            assert forall|x: Number| #[trigger]
                                candidates@.contains(x) <==> lhs_candidate(
                                    cs,
                                    BinaryOperator::Divide,
                                    result as int,
                                    max_number_of_syllables as int,
                                    max_lhs as int,
                                    x as int,
                                ) by {
                                if lhs_candidate(
                                    cs,
                                    BinaryOperator::Divide,
                                    result as int,
                                    max_number_of_syllables as int,
                                    max_lhs as int,
                                    x as int,
                                ) {
                                    let j = choose|j: int|
                                        j >= 1 && x == #[trigger] multiple(result as int, j);
                                    if j >= k {
                                        assert(!fits_i32(multiple(result as int, j)));
                                    }
                                }
                            }
                        }
                        proof {
                        lemma_multiples_in_order(result as int, candidates@);
                    }
                    break;
                    },
                }
            }
            candidates
        },
        BinaryOperator::Exponent => {
            // lhs ^ rhs = result
            let mut candidates: Vec<Number> = Vec::new();
            let mut lhs: i64 = 1;
            while lhs <= max_lhs as i64
                invariant
                    1 <= lhs <= max_lhs as int + 1 || lhs == 1,
                    forall|x: Number| #[trigger] candidates@.contains(x) <==> (1 <= x < lhs),
                    increasing(candidates@),
                    forall|i: int| 0 <= i < candidates@.len() ==> candidates@[i] < lhs,
                decreases max_lhs as int + 1 - lhs,
            {
                let ghost before = candidates@;
                candidates.push(lhs as Number);
                proof {
                    lemma_push_contains(before, lhs as Number);
                }
                lhs = lhs + 1;
            }
            candidates
        },
    }
}


/// The plain number words for `n`: its value, spelling and syllable count.
pub open spec fn plain_words(cs: Seq<DictionaryConstant>, n: int) -> (int, Seq<char>, int) {
    spec_value_to_words(cs, n)->Some_0
}

/// The plain number words for `n` can be had without a panic: the dictionary's word for
/// zero, or the words built for any other number.
pub open spec fn words_available(cs: Seq<DictionaryConstant>, n: int) -> bool {
    if n == 0 {
        find_constant(cs, 0) is Some
    } else {
        words_defined(cs, n)
    }
}

/// The views of a sequence of number representations.
pub open spec fn views(s: Seq<NumberRepresentation>) -> Seq<(int, Seq<char>, int)> {
    s.map_values(|n: NumberRepresentation| n@)
}

/// `t` says `v` as the plain words for the root of `v` followed by the unary operator word `w`.
pub open spec fn unary_move(
    cs: Seq<DictionaryConstant>,
    w: DictionaryOperator,
    v: int,
    t: (int, Seq<char>, int),
) -> bool {
    match w.operator {
        Operator::Unary(u) => match u.spec_get_inverse(v) {
            Ok(x) => t == (
                v,
                plain_words(cs, x).1 + " "@ + w.representation@,
                plain_words(cs, x).2 + w.number_of_syllables,
            ),
            Err(_) => false,
        },
        Operator::Binary(_) => false,
    }
}

/// `t` says `v` as the plain words for a left operand `lhs` that the search tries (see
/// `lhs_candidate`, with left operands up to `5 * v` and syllable limit `b`), the binary
/// operator word `w` and the plain words for the non-negative right operand that solves
/// `lhs op rhs == v`, in at most `b` syllables.
pub open spec fn binary_move(
    cs: Seq<DictionaryConstant>,
    w: DictionaryOperator,
    v: int,
    b: int,
    lhs: int,
    t: (int, Seq<char>, int),
) -> bool {
    match w.operator {
        Operator::Binary(o) => lhs_candidate(cs, o, v, b, 5 * v, lhs) && match o.spec_get_rhs(
            v,
            lhs,
        ) {
            Ok(rhs) => {
                let cost = plain_words(cs, rhs).2 + w.number_of_syllables + plain_words(cs, lhs).2;
                &&& rhs >= 0
                &&& cost <= b
                &&& t == (
                    v,
                    plain_words(cs, lhs).1 + " "@ + w.representation@ + " "@ + plain_words(
                        cs,
                        rhs,
                    ).1,
                    cost,
                )
            },
            Err(_) => false,
        },
        Operator::Unary(_) => false,
    }
}

/// `t` is a state that the search reaches in one step from a way to say `v` in `b`
/// syllables: a unary or a binary move of some operator word of `ops`.
pub open spec fn next_state(
    cs: Seq<DictionaryConstant>,
    ops: Seq<DictionaryOperator>,
    v: int,
    b: int,
    t: (int, Seq<char>, int),
) -> bool {
    ||| exists|i: int| 0 <= i < ops.len() && #[trigger] unary_move(cs, ops[i], v, t)
    ||| exists|i: int, lhs: int| 0 <= i < ops.len() && #[trigger] binary_move(cs, ops[i], v, b, lhs, t)
}

/// The inputs for which the steps that the operator word `op` allows from a way to say `v`
/// finish without a panic: a square root or divisors are taken of a non-negative `v` only,
/// the numbers that `get_lhs_candidates` looks up have words that finish, and the plain
/// words of the operands of every move exist and have syllable counts that can be added up.
pub open spec fn word_search_defined(cs: Seq<DictionaryConstant>, op: Operator, v: int) -> bool {
    match op {
        Operator::Unary(u) => {
            &&& u == UnaryOperator::Squared ==> v >= 0
            &&& u.spec_get_inverse(v) matches Ok(x) ==> words_available(cs, x) && syllables_in_range(
                plain_syllables(cs, x),
            )
        },
        Operator::Binary(o) => {
            &&& lhs_candidates_defined(cs, o, v, 5 * v)
            &&& forall|b: int, lhs: int|
                #[trigger] lhs_candidate(cs, o, v, b, 5 * v, lhs) ==> operands_defined(cs, o, v, lhs)
        },
    }
}

/// When `lhs op rhs == v` has a non-negative solution `rhs`, the plain words of both
/// operands exist and have syllable counts that can be added up.
pub open spec fn operands_defined(cs: Seq<DictionaryConstant>, o: BinaryOperator, v: int, lhs: int) -> bool {
    match o.spec_get_rhs(v, lhs) {
        Ok(rhs) => rhs >= 0 ==> words_available(cs, lhs) && words_available(cs, rhs)
            && syllables_in_range(plain_syllables(cs, lhs)) && syllables_in_range(
            plain_syllables(cs, rhs),
        ),
        Err(_) => true,
    }
}

/// The inputs for which the search's steps from a way to say `v` finish without a panic:
/// `5 * v` fits, the operator words' syllable counts can be added up, and each operator
/// word of the dictionary can be used (`word_search_defined`).
pub open spec fn search_defined(cs: Seq<DictionaryConstant>, ops: Seq<DictionaryOperator>, v: int) -> bool {
    &&& fits_i32(5 * v)
    &&& operators_in_range(ops)
    &&& forall|i: int| 0 <= i < ops.len() ==> #[trigger] word_search_defined(cs, ops[i].operator, v)
}

/// A root that `get_inverse` finds for a non-negative `v` lies between 0 and `v`.
proof fn lemma_inverse_range(u: UnaryOperator, v: int, x: int)
    requires
        v >= 0,
        u.spec_get_inverse(v) == Ok::<int, crate::math::expression::ArithmeticErrorView>(x),
    ensures
        0 <= x <= v,
{
    match u {
        UnaryOperator::Squared => {
            let a = if x < 0 { -x } else { x };
            assert(a * a == x * x) by (nonlinear_arith)
                requires
                    a == x || a == -x,
            ;
            assert(a * a <= v < (a + 1) * (a + 1)) by (nonlinear_arith)
                requires
                    a * a == v,
                    a >= 0,
            ;
            assert(is_isqrt(v, a));
            assert(x >= 0);
        },
        UnaryOperator::Cubed => {
            if x < 0 {
                assert(x * x * x < 0) by (nonlinear_arith)
                    requires
                        x < 0,
                ;
            }
        },
    }
    if x >= 1 {
        match u {
            UnaryOperator::Squared => {
                assert(x <= x * x) by (nonlinear_arith)
                    requires
                        x >= 1,
                ;
            },
            UnaryOperator::Cubed => {
                assert(x <= x * x * x) by (nonlinear_arith)
                    requires
                        x >= 1,
                ;
            },
        }
    }
}

/// A left operand that the search tries lies between 0 and `5 * v` (and then `v >= 0`); for
/// `/`, `v` is positive.
proof fn lemma_lhs_range(
    cs: Seq<DictionaryConstant>,
    o: BinaryOperator,
    v: int,
    b: int,
    lhs: int,
)
    requires
        lhs_candidate(cs, o, v, b, 5 * v, lhs),
        o == BinaryOperator::Divide ==> v != 0,
    ensures
        0 <= v,
        0 <= lhs <= 5 * v,
        o == BinaryOperator::Divide ==> 1 <= v <= lhs,
        o != BinaryOperator::Subtract ==> lhs >= 1,
{
    if o == BinaryOperator::Divide {
        let k = choose|k: int| k >= 1 && lhs == #[trigger] multiple(v, k);
        assert(v * k >= v) by (nonlinear_arith)
            requires
                v >= 1,
                k >= 1,
        ;
    }
}

/// The states one step away from `start`: for each unary operator word, the plain words
/// for the root of the value followed by the word; for each binary operator word and each
/// left operand that the search tries, the plain words for both operands around the word,
/// when they take no more syllables than `start` (see `next_state`).
pub fn get_next_states(start: NumberRepresentation, dictionary: &Dictionary) -> (r: Vec<
    NumberRepresentation,
>)
    requires
        search_defined(dictionary.constants@, dictionary.operators@, start.value as int),
    ensures
        forall|t: (int, Seq<char>, int)| #[trigger]
            views(r@).contains(t) <==> next_state(
                dictionary.constants@,
                dictionary.operators@,
                start.value as int,
                start.number_of_syllables as int,
                t,
            ),
{
    let ghost cs = dictionary.constants@;
    let ghost ops = dictionary.operators@;
    let ghost v = start.value as int;
    let ghost b = start.number_of_syllables as int;
    let mut next_states: Vec<NumberRepresentation> = Vec::new();

    // Unary
    let mut i: usize = 0;
    while i < dictionary.operators.len()
        invariant
            i <= ops.len(),
            cs == dictionary.constants@,
            ops == dictionary.operators@,
            v == start.value,
            b == start.number_of_syllables,
            search_defined(cs, ops, v),
            forall|t: (int, Seq<char>, int)| #[trigger]
                views(next_states@).contains(t) <==> exists|j: int|
                    0 <= j < i && #[trigger] unary_move(cs, ops[j], v, t),
        decreases ops.len() - i,
    {
        let word = &dictionary.operators[i];
        let ghost before = next_states@;
        proof {
            assert(ops[i as int] == *word);
            assert(word_search_defined(cs, ops[i as int].operator, v));
        }
        match word.operator {
            Operator::Unary(operator) => {
                match operator.get_inverse(start.value) {
                    Ok(new_value) => {
                        proof {
                            lemma_inverse_range(operator, v, new_value as int);
                            assert(words_available(cs, new_value as int));
                            assert(syllables_in_range(ops[i as int].number_of_syllables as int));
                        }
                        match value_to_words(new_value, dictionary) {
                            Some(new_representation) => {
                                let new_cost = new_representation.number_of_syllables
                                    + word.number_of_syllables;
                                let mut representation = new_representation.representation;
                                representation.append(" ");
                                representation.append(word.representation.as_str());
                                let state = NumberRepresentation {
                                    value: start.value,
                                    number_of_syllables: new_cost,
                                    representation,
                                };
                                let ghost e = state@;
                                next_states.push(state);
                                proof {
                                    assert(views(next_states@) =~= views(before).push(e));
                                    lemma_push_contains(views(before), e);
                                    assert(unary_move(cs, ops[i as int], v, e));
                                }
                            },
                            None => {},
                        }
                    },
                    Err(_) => {},
                }
            },
            Operator::Binary(_) => {},
        }
        proof {
            assert forall|t: (int, Seq<char>, int)| #[trigger]
                views(next_states@).contains(t) <==> exists|j: int|
                    0 <= j < i + 1 && #[trigger] unary_move(cs, ops[j], v, t) by {
                if exists|j: int| 0 <= j < i + 1 && #[trigger] unary_move(cs, ops[j], v, t) {
                    let j = choose|j: int| 0 <= j < i + 1 && #[trigger] unary_move(cs, ops[j], v, t);
                    if j < i {
                        assert(views(before).contains(t));
                    }
                }
                if views(next_states@).contains(t) && !views(before).contains(t) {
                    assert(unary_move(cs, ops[i as int], v, t));
                }
            }
        }
        i = i + 1;
    }

    // Binary
    let max_lhs = start.value * 5;
    let mut i: usize = 0;
    while i < dictionary.operators.len()
        invariant
            i <= ops.len(),
            cs == dictionary.constants@,
            ops == dictionary.operators@,
            v == start.value,
            b == start.number_of_syllables,
            max_lhs == 5 * v,
            search_defined(cs, ops, v),
            forall|t: (int, Seq<char>, int)| #[trigger]
                views(next_states@).contains(t) <==> ((exists|j: int|
                    0 <= j < ops.len() && #[trigger] unary_move(cs, ops[j], v, t)) || exists|
                    j: int,
                    lhs: int,
                | 0 <= j < i && #[trigger] binary_move(cs, ops[j], v, b, lhs, t)),
        decreases ops.len() - i,
    {
        let word = &dictionary.operators[i];
        proof {
            assert(ops[i as int] == *word);
            assert(syllables_in_range(ops[i as int].number_of_syllables as int));
        }
        match word.operator {
            Operator::Binary(operator) => {
                proof {
                    assert(word_search_defined(cs, ops[i as int].operator, v));
                }
                let lhs_candidates = get_lhs_candidates(
                    &operator,
                    start.value,
                    start.number_of_syllables,
                    max_lhs,
                    dictionary,
                );
                let mut c: usize = 0;
                while c < lhs_candidates.len()
                    invariant
                        c <= lhs_candidates@.len(),
                        i < ops.len(),
                        cs == dictionary.constants@,
                        ops == dictionary.operators@,
                        *word == ops[i as int],
                        word.operator == Operator::Binary(operator),
                        v == start.value,
                        b == start.number_of_syllables,
                        max_lhs == 5 * v,
                        search_defined(cs, ops, v),
                        word_search_defined(cs, Operator::Binary(operator), v),
                        syllables_in_range(word.number_of_syllables as int),
                        operator == BinaryOperator::Divide ==> v != 0,
                        forall|lhs: Number| #[trigger]
                            lhs_candidates@.contains(lhs) <==> lhs_candidate(
                                cs,
                                operator,
                                v,
                                b,
                                5 * v,
                                lhs as int,
                            ),
                        forall|t: (int, Seq<char>, int)| #[trigger]
                            views(next_states@).contains(t) <==> ((exists|j: int|
                                0 <= j < ops.len() && #[trigger] unary_move(cs, ops[j], v, t)) || (
                            exists|j: int, lhs: int|
                                0 <= j < i && #[trigger] binary_move(cs, ops[j], v, b, lhs, t)) || (
                            exists|lhs: int|
                                lhs_candidates@.take(c as int).contains(lhs as Number) && fits_i32(lhs)
                                    && #[trigger] binary_move(cs, ops[i as int], v, b, lhs, t))),
                    decreases lhs_candidates.len() - c,
                {
                    let lhs = lhs_candidates[c];
                    let ghost inner = next_states@;
                    proof {
                        assert(lhs_candidates@.contains(lhs));
                        lemma_lhs_range(cs, operator, v, b, lhs as int);
                        assert(lhs_candidates@.take(c + 1) =~= lhs_candidates@.take(c as int).push(lhs));
                        lemma_push_contains(lhs_candidates@.take(c as int), lhs);
                    }
                    match operator.get_rhs(start.value, lhs) {
                        Ok(new_value) => {
                            if new_value >= 0 {
                                proof {
                                    assert(lhs_candidate(cs, operator, v, b, 5 * v, lhs as int));
                                    assert(words_available(cs, new_value as int));
                                    assert(words_available(cs, lhs as int));
                                }
                                match (
                                    value_to_words(new_value, dictionary),
                                    value_to_words(lhs, dictionary),
                                ) {
                                    (Some(rhs_representation), Some(lhs_representation)) => {
                                        let new_cost = rhs_representation.number_of_syllables
                                            + word.number_of_syllables
                                            + lhs_representation.number_of_syllables;
                                        if new_cost <= start.number_of_syllables {
                                            let mut representation = lhs_representation.representation;
                                            representation.append(" ");
                                            representation.append(word.representation.as_str());
                                            representation.append(" ");
                                            representation.append(
                                                rhs_representation.representation.as_str(),
                                            );
                                            let state = NumberRepresentation {
                                                value: start.value,
                                                number_of_syllables: new_cost,
                                                representation,
                                            };
                                            let ghost e = state@;
                                            next_states.push(state);
                                            proof {
                                                assert(views(next_states@) =~= views(inner).push(e));
                                                lemma_push_contains(views(inner), e);
                                                assert(binary_move(cs, ops[i as int], v, b, lhs as int, e));
                                            }
                                        }
                                    },
                                    _ => {},
                                }
                            }
                        },
                        Err(_) => {},
                    }
                    proof {
                        assert forall|t: (int, Seq<char>, int)| #[trigger]
                            views(next_states@).contains(t) <==> ((exists|j: int|
                                0 <= j < ops.len() && #[trigger] unary_move(cs, ops[j], v, t)) || (
                            exists|j: int, l: int|
                                0 <= j < i && #[trigger] binary_move(cs, ops[j], v, b, l, t)) || (
                            exists|l: int|
                                lhs_candidates@.take(c + 1).contains(l as Number) && fits_i32(l)
                                    && #[trigger] binary_move(cs, ops[i as int], v, b, l, t))) by {
                            if exists|l: int|
                                lhs_candidates@.take(c + 1).contains(l as Number) && fits_i32(l)
                                    && #[trigger] binary_move(cs, ops[i as int], v, b, l, t) {
                                let l = choose|l: int|
                                    lhs_candidates@.take(c + 1).contains(l as Number) && fits_i32(l)
                                        && #[trigger] binary_move(cs, ops[i as int], v, b, l, t);
                                if l != lhs {
                                    assert(lhs_candidates@.take(c as int).contains(l as Number));
                                }
                            }
                            if views(next_states@).contains(t) && !views(inner).contains(t) {
                                assert(binary_move(cs, ops[i as int], v, b, lhs as int, t));
                            }
                        }
                    }
                    c = c + 1;
                }
                proof {
                    assert(lhs_candidates@.take(c as int) =~= lhs_candidates@);
                    assert forall|t: (int, Seq<char>, int)| #[trigger]
                        views(next_states@).contains(t) <==> ((exists|j: int|
                            0 <= j < ops.len() && #[trigger] unary_move(cs, ops[j], v, t)) || exists|
                            j: int,
                            l: int,
                        | 0 <= j < i + 1 && #[trigger] binary_move(cs, ops[j], v, b, l, t)) by {
                        if exists|j: int, l: int|
                            0 <= j < i + 1 && #[trigger] binary_move(cs, ops[j], v, b, l, t) {
                            let (j, l) = choose|j: int, l: int|
                                0 <= j < i + 1 && #[trigger] binary_move(cs, ops[j], v, b, l, t);
                            if j == i {
                                lemma_lhs_range(cs, operator, v, b, l);
                                assert(lhs_candidates@.contains(l as Number));
                            }
                        }
                    }
                }
            },
            Operator::Unary(_) => {},
        }
        i = i + 1;
    }
    proof {
        assert forall|t: (int, Seq<char>, int)| #[trigger]
            views(next_states@).contains(t) <==> next_state(cs, ops, v, b, t) by {
            if exists|j: int, l: int| 0 <= j < ops.len() && #[trigger] binary_move(cs, ops[j], v, b, l, t) {
                let (j, l) = choose|j: int, l: int|
                    0 <= j < ops.len() && #[trigger] binary_move(cs, ops[j], v, b, l, t);
                assert(0 <= j < i);
            }
        }
    }
    next_states
}


/// The state that the unary operator word `w` makes for `v` (see `unary_move`).
pub open spec fn unary_state(cs: Seq<DictionaryConstant>, w: DictionaryOperator, v: int) -> (
    int,
    Seq<char>,
    int,
) {
    match w.operator {
        Operator::Unary(u) => {
            let x = u.spec_get_inverse(v)->Ok_0;
            (v, plain_words(cs, x).1 + " "@ + w.representation@, plain_words(cs, x).2 + w.number_of_syllables)
        },
        Operator::Binary(_) => (v, Seq::empty(), 0),
    }
}

/// The state that the binary operator word `w` makes for `v` with left operand `lhs` (see
/// `binary_move`).
pub open spec fn binary_state(
    cs: Seq<DictionaryConstant>,
    w: DictionaryOperator,
    v: int,
    lhs: int,
) -> (int, Seq<char>, int) {
    match w.operator {
        Operator::Binary(o) => {
            let rhs = o.spec_get_rhs(v, lhs)->Ok_0;
            (
                v,
                plain_words(cs, lhs).1 + " "@ + w.representation@ + " "@ + plain_words(cs, rhs).1,
                plain_words(cs, rhs).2 + w.number_of_syllables + plain_words(cs, lhs).2,
            )
        },
        Operator::Unary(_) => (v, Seq::empty(), 0),
    }
}

/// The states that the first `n` operator words make for `v` with left operands from 0 to
/// `5 * v`.
pub open spec fn binary_universe(
    cs: Seq<DictionaryConstant>,
    ops: Seq<DictionaryOperator>,
    v: int,
    n: nat,
) -> Set<(int, Seq<char>, int)>
    decreases n,
{
    if n == 0 {
        Set::empty()
    } else {
        binary_universe(cs, ops, v, (n - 1) as nat).union(
            set_int_range(0, 5 * v + 1).map(|lhs: int| binary_state(cs, ops[n - 1], v, lhs)),
        )
    }
}

/// Every state that the search can reach from `start`, and some more: `start` and what each
/// operator word can make for its value.
pub open spec fn state_universe(
    cs: Seq<DictionaryConstant>,
    ops: Seq<DictionaryOperator>,
    start: (int, Seq<char>, int),
) -> Set<(int, Seq<char>, int)> {
    Set::empty().insert(start).union(
        set_int_range(0, ops.len() as int).map(|i: int| unary_state(cs, ops[i], start.0)),
    ).union(binary_universe(cs, ops, start.0, ops.len()))
}

proof fn lemma_binary_universe(
    cs: Seq<DictionaryConstant>,
    ops: Seq<DictionaryOperator>,
    v: int,
    n: nat,
)
    requires
        v >= 0,
        n <= ops.len(),
    ensures
        binary_universe(cs, ops, v, n).finite(),
        forall|i: int, lhs: int|
            0 <= i < n && 0 <= lhs <= 5 * v ==> binary_universe(cs, ops, v, n).contains(
                #[trigger] binary_state(cs, ops[i], v, lhs),
            ),
    decreases n,
{
    if n > 0 {
        lemma_binary_universe(cs, ops, v, (n - 1) as nat);
        lemma_int_range(0, 5 * v + 1);
        let f = |lhs: int| binary_state(cs, ops[n - 1], v, lhs);
        set_int_range(0, 5 * v + 1).lemma_map_finite(f);
        assert forall|i: int, lhs: int|
            0 <= i < n && 0 <= lhs <= 5 * v implies binary_universe(cs, ops, v, n).contains(
            #[trigger] binary_state(cs, ops[i], v, lhs),
        ) by {
            if i == n - 1 {
                assert(set_int_range(0, 5 * v + 1).contains(lhs));
                assert(f(lhs) == binary_state(cs, ops[i], v, lhs));
            }
        }
    }
}

/// The state universe is finite and holds `start` and every state one step away from any
/// way to say `start`'s value.
proof fn lemma_state_universe(
    cs: Seq<DictionaryConstant>,
    ops: Seq<DictionaryOperator>,
    start: (int, Seq<char>, int),
)
    requires
        search_defined(cs, ops, start.0),
    ensures
        state_universe(cs, ops, start).finite(),
        state_universe(cs, ops, start).contains(start),
        forall|b: int, t: (int, Seq<char>, int)|
            #[trigger] next_state(cs, ops, start.0, b, t) ==> state_universe(cs, ops, start).contains(t),
{
    let v = start.0;
    let g = |i: int| unary_state(cs, ops[i], v);
    lemma_int_range(0, ops.len() as int);
    set_int_range(0, ops.len() as int).lemma_map_finite(g);
    if v >= 0 {
        lemma_binary_universe(cs, ops, v, ops.len());
    } else {
        lemma_binary_universe_negative(cs, ops, v, ops.len());
    }
    assert forall|b: int, t: (int, Seq<char>, int)|
        #[trigger] next_state(cs, ops, v, b, t) implies state_universe(cs, ops, start).contains(t) by {
        if exists|i: int| 0 <= i < ops.len() && #[trigger] unary_move(cs, ops[i], v, t) {
            let i = choose|i: int| 0 <= i < ops.len() && #[trigger] unary_move(cs, ops[i], v, t);
            assert(set_int_range(0, ops.len() as int).contains(i));
            assert(g(i) == t);
        } else {
            let (i, lhs) = choose|i: int, lhs: int|
                0 <= i < ops.len() && #[trigger] binary_move(cs, ops[i], v, b, lhs, t);
            let o = ops[i].operator->Binary_0;
            assert(word_search_defined(cs, ops[i].operator, v));
            lemma_lhs_range(cs, o, v, b, lhs);
            assert(t == binary_state(cs, ops[i], v, lhs));
        }
    }
}

/// For a negative value the binary universe is empty, which is finite.
proof fn lemma_binary_universe_negative(
    cs: Seq<DictionaryConstant>,
    ops: Seq<DictionaryOperator>,
    v: int,
    n: nat,
)
    requires
        v < 0,
    ensures
        binary_universe(cs, ops, v, n).finite(),
    decreases n,
{
    if n > 0 {
        lemma_binary_universe_negative(cs, ops, v, (n - 1) as nat);
        assert(set_int_range(0, 5 * v + 1) =~= Set::empty());
        let f = |lhs: int| binary_state(cs, ops[n - 1], v, lhs);
        assert(Set::<int>::empty().map(f) =~= Set::empty());
    }
}

/// State `k` of `trail` is one step away from an earlier state of `trail`.
pub open spec fn has_parent(
    cs: Seq<DictionaryConstant>,
    ops: Seq<DictionaryOperator>,
    trail: Seq<(int, Seq<char>, int)>,
    k: int,
) -> bool {
    exists|j: int| 0 <= j < k && #[trigger] next_state(cs, ops, trail[j].0, trail[j].2, trail[k])
}

/// Each state of `trail` after the first is one step away from an earlier one.
pub open spec fn search_trail(
    cs: Seq<DictionaryConstant>,
    ops: Seq<DictionaryOperator>,
    trail: Seq<(int, Seq<char>, int)>,
) -> bool {
    forall|k: int| 0 < k < trail.len() ==> #[trigger] has_parent(cs, ops, trail, k)
}

/// The search can reach `t` from `start` by steps from state to state.
pub open spec fn reachable(
    cs: Seq<DictionaryConstant>,
    ops: Seq<DictionaryOperator>,
    start: (int, Seq<char>, int),
    t: (int, Seq<char>, int),
) -> bool {
    exists|trail: Seq<(int, Seq<char>, int)>|
        #[trigger] search_trail(cs, ops, trail) && trail.len() > 0 && trail[0] == start
            && trail.contains(t)
}

/// A trail extended by a state one step away from one of its states is still a trail.
proof fn lemma_trail_push(
    cs: Seq<DictionaryConstant>,
    ops: Seq<DictionaryOperator>,
    trail: Seq<(int, Seq<char>, int)>,
    k: int,
    x: (int, Seq<char>, int),
)
    requires
        search_trail(cs, ops, trail),
        0 <= k < trail.len(),
        next_state(cs, ops, trail[k].0, trail[k].2, x),
    ensures
        search_trail(cs, ops, trail.push(x)),
{
    let longer = trail.push(x);
    assert forall|j: int| 0 < j < longer.len() implies #[trigger] has_parent(cs, ops, longer, j) by {
        if j == trail.len() {
            assert(longer[k] == trail[k]);
            assert(next_state(cs, ops, longer[k].0, longer[k].2, longer[j]));
        } else {
            assert(has_parent(cs, ops, trail, j));
            let i = choose|i: int|
                0 <= i < j && #[trigger] next_state(cs, ops, trail[i].0, trail[i].2, trail[j]);
            assert(longer[i] == trail[i]);
            assert(longer[j] == trail[j]);
            assert(next_state(cs, ops, longer[i].0, longer[i].2, longer[j]));
        }
    }
}

/// A set of states that holds the start of a trail and every state one step away from any
/// of its states holds the whole trail.
proof fn lemma_trail_in_closed(
    cs: Seq<DictionaryConstant>,
    ops: Seq<DictionaryOperator>,
    trail: Seq<(int, Seq<char>, int)>,
    closed: Seq<(int, Seq<char>, int)>,
    k: int,
)
    requires
        search_trail(cs, ops, trail),
        0 <= k < trail.len(),
        closed.contains(trail[0]),
        forall|u: (int, Seq<char>, int), t: (int, Seq<char>, int)|
            #![trigger closed.contains(u), next_state(cs, ops, u.0, u.2, t)]
            closed.contains(u) && next_state(cs, ops, u.0, u.2, t) ==> closed.contains(t),
    ensures
        forall|j: int| 0 <= j <= k ==> closed.contains(#[trigger] trail[j]),
    decreases k,
{
    if k > 0 {
        lemma_trail_in_closed(cs, ops, trail, closed, k - 1);
        assert(has_parent(cs, ops, trail, k));
        let j = choose|j: int| 0 <= j < k && #[trigger] next_state(cs, ops, trail[j].0, trail[j].2, trail[k]);
        assert(closed.contains(trail[j]));
    }
}

/// Whether `list` holds a state equal to `x`.
fn contains_state(list: &Vec<NumberRepresentation>, x: &NumberRepresentation) -> (r: bool)
    ensures
        r == views(list@).contains(x@),
{
    let mut i: usize = 0;
    while i < list.len()
        invariant
            i <= list@.len(),
            forall|j: int| 0 <= j < i ==> views(list@)[j] != x@,
        decreases list.len() - i,
    {
        let y = &list[i];
        if y.value == x.value && y.number_of_syllables == x.number_of_syllables
            && y.representation == x.representation {
            proof {
                assert(views(list@)[i as int] == x@);
            }
            return true;
        }
        proof {
            assert(views(list@)[i as int] == list@[i as int]@);
        }
        i = i + 1;
    }
    false
}

/// The index of the first state of `frontier` with the fewest syllables.
fn cheapest(frontier: &Vec<NumberRepresentation>) -> (r: usize)
    requires
        frontier@.len() > 0,
    ensures
        r < frontier@.len(),
        forall|k: int|
            0 <= k < frontier@.len() ==> frontier@[r as int].number_of_syllables
                <= #[trigger] frontier@[k].number_of_syllables,
{
    let mut best: usize = 0;
    let mut i: usize = 1;
    while i < frontier.len()
        invariant
            1 <= i <= frontier@.len(),
            best < i,
            forall|k: int|
                0 <= k < i ==> frontier@[best as int].number_of_syllables
                    <= #[trigger] frontier@[k].number_of_syllables,
        decreases frontier.len() - i,
    {
        if frontier[i].number_of_syllables < frontier[best].number_of_syllables {
            best = i;
        }
        i = i + 1;
    }
    best
}

/// A way to say `start_node`'s value in exactly `target` syllables, found by uniform cost
/// search: the state with the fewest syllables is expanded first (`get_next_states`), and
/// every state not seen before joins the frontier. The start itself is returned when it
/// already takes `target` syllables; `None` when no state the search can reach does.
pub fn ucs(start_node: NumberRepresentation, target: Number, dictionary: &Dictionary) -> (r: Option<
    NumberRepresentation,
>)
    requires
        start_node.number_of_syllables == target || search_defined(
            dictionary.constants@,
            dictionary.operators@,
            start_node.value as int,
        ),
    ensures
        start_node.number_of_syllables == target ==> r == Some(start_node),
        match r {
            Some(found) => found.number_of_syllables == target && reachable(
                dictionary.constants@,
                dictionary.operators@,
                start_node@,
                found@,
            ),
            None => forall|t: (int, Seq<char>, int)|
                reachable(dictionary.constants@, dictionary.operators@, start_node@, t) ==> t.2
                    != target,
        },
{
    let ghost cs = dictionary.constants@;
    let ghost ops = dictionary.operators@;
    let ghost v = start_node.value as int;
    let ghost s = start_node@;
    // The start is the first state taken from the frontier
    if start_node.number_of_syllables == target {
        proof {
            let trail = seq![s];
            assert(search_trail(cs, ops, trail));
            assert(trail[0] == s);
            assert(trail.contains(s));
        }
        return Some(start_node);
    }
    let ghost universe = state_universe(cs, ops, s);
    proof {
        lemma_state_universe(cs, ops, s);
    }
    let mut frontier: Vec<NumberRepresentation> = Vec::new();
    let mut seen: Vec<NumberRepresentation> = Vec::new();
    seen.push(start_node.duplicate());
    frontier.push(start_node.duplicate());
    proof {
        assert(views(seen@) =~= seq![s]);
        assert(views(frontier@) =~= seq![s]);
        views(seen@).unique_seq_to_set();
        assert(views(seen@).to_set().subset_of(universe));
        lemma_len_subset(views(seen@).to_set(), universe);
    }
    loop
        invariant
            cs == dictionary.constants@,
            ops == dictionary.operators@,
            v == s.0,
            s == start_node@,
            start_node.number_of_syllables != target,
            search_defined(cs, ops, v),
            universe == state_universe(cs, ops, s),
            universe.finite(),
            forall|b: int, t: (int, Seq<char>, int)|
                #[trigger] next_state(cs, ops, v, b, t) ==> universe.contains(t),
            views(seen@).len() > 0,
            views(seen@)[0] == s,
            search_trail(cs, ops, views(seen@)),
            views(seen@).no_duplicates(),
            seen@.len() <= universe.len(),
            forall|t: (int, Seq<char>, int)| #[trigger]
                views(seen@).contains(t) ==> t.0 == v && universe.contains(t),
            forall|t: (int, Seq<char>, int)| #[trigger]
                views(frontier@).contains(t) ==> views(seen@).contains(t),
            views(frontier@).no_duplicates(),
            forall|t: (int, Seq<char>, int)| #[trigger]
                views(seen@).contains(t) && !views(frontier@).contains(t) ==> t.2 != target,
            forall|t: (int, Seq<char>, int), t2: (int, Seq<char>, int)|
                #![trigger views(seen@).contains(t), next_state(cs, ops, t.0, t.2, t2)]
                views(seen@).contains(t) && !views(frontier@).contains(t) && next_state(
                    cs,
                    ops,
                    t.0,
                    t.2,
                    t2,
                ) ==> views(seen@).contains(t2),
        decreases universe.len() - seen@.len(), frontier@.len(),
    {
        if frontier.len() == 0 {
            proof {
                assert(views(frontier@) =~= Seq::<(int, Seq<char>, int)>::empty());
                assert forall|u: (int, Seq<char>, int), t: (int, Seq<char>, int)|
                    #![trigger views(seen@).contains(u), next_state(cs, ops, u.0, u.2, t)]
                    views(seen@).contains(u) && next_state(cs, ops, u.0, u.2, t) implies views(
                        seen@,
                    ).contains(t) by {
                    assert(!views(frontier@).contains(u));
                }
                assert forall|t: (int, Seq<char>, int)| #[trigger]
                    views(seen@).contains(t) implies t.2 != target by {
                    assert(!views(frontier@).contains(t));
                }
                assert forall|t: (int, Seq<char>, int)|
                    reachable(cs, ops, s, t) implies t.2 != target by {
                    let trail = choose|trail: Seq<(int, Seq<char>, int)>|
                        #[trigger] search_trail(cs, ops, trail) && trail.len() > 0 && trail[0] == s
                            && trail.contains(t);
                    assert(views(seen@).contains(views(seen@)[0]));
                    lemma_trail_in_closed(cs, ops, trail, views(seen@), trail.len() - 1);
                    let k = choose|k: int| 0 <= k < trail.len() && trail[k] == t;
                    assert(views(seen@).contains(trail[k]));
                    assert(!views(frontier@).contains(t));
                }
            }
            return None;
        }
        let index = cheapest(&frontier);
        let ghost old_frontier = views(frontier@);
        let current = frontier.remove(index);
        let ghost cur = current@;
        proof {
            assert(old_frontier[index as int] == cur);
            assert(old_frontier.contains(cur));
            assert(views(frontier@) =~= old_frontier.remove(index as int));
            assert forall|t: (int, Seq<char>, int)| #[trigger]
                views(frontier@).contains(t) implies old_frontier.contains(t) && t != cur by {
                let k = choose|k: int| 0 <= k < views(frontier@).len() && views(frontier@)[k] == t;
                if k < index {
                    assert(old_frontier[k] == t);
                } else {
                    assert(old_frontier[k + 1] == t);
                }
            }
            assert forall|t: (int, Seq<char>, int)|
                old_frontier.contains(t) && t != cur implies #[trigger] views(frontier@).contains(t) by {
                let k = choose|k: int| 0 <= k < old_frontier.len() && old_frontier[k] == t;
                if k < index {
                    assert(views(frontier@)[k] == t);
                } else {
                    assert(views(frontier@)[k - 1] == t);
                }
            }
            assert(views(frontier@).no_duplicates());
        }
        if current.number_of_syllables == target {
            proof {
                assert(views(seen@).contains(cur));
                assert(search_trail(cs, ops, views(seen@)));
                assert(reachable(cs, ops, s, cur));
            }
            return Some(current);
        }
        proof {
            assert forall|t: (int, Seq<char>, int)| #[trigger]
                views(seen@).contains(t) && !views(frontier@).contains(t) implies t.2 != target by {
                if t != cur {
                    assert(!old_frontier.contains(t));
                }
            }
            assert forall|t: (int, Seq<char>, int), t2: (int, Seq<char>, int)|
                #![trigger views(seen@).contains(t), next_state(cs, ops, t.0, t.2, t2)]
                views(seen@).contains(t) && !views(frontier@).contains(t) && t != cur
                    && next_state(cs, ops, t.0, t.2, t2) implies views(seen@).contains(t2) by {
                assert(!old_frontier.contains(t));
            }
        }
        let neighbors = get_next_states(current, dictionary);
        let ghost seen_before = seen@.len();
        let ghost frontier_before = frontier@.len();
        let mut n: usize = 0;
        while n < neighbors.len()
            invariant
                n <= neighbors@.len(),
                cs == dictionary.constants@,
                ops == dictionary.operators@,
                v == s.0,
                cur.0 == v,
                cur.2 != target,
                views(seen@).contains(cur),
                !views(frontier@).contains(cur),
                universe.finite(),
                forall|b: int, t: (int, Seq<char>, int)|
                    #[trigger] next_state(cs, ops, v, b, t) ==> universe.contains(t),
                forall|t: (int, Seq<char>, int)| #[trigger]
                    views(neighbors@).contains(t) <==> next_state(cs, ops, cur.0, cur.2, t),
                forall|k: int| 0 <= k < n ==> views(seen@).contains(#[trigger] views(neighbors@)[k]),
                views(seen@).len() > 0,
                views(seen@)[0] == s,
                search_trail(cs, ops, views(seen@)),
                views(seen@).no_duplicates(),
                seen@.len() <= universe.len(),
                seen_before <= seen@.len(),
                frontier@.len() + seen_before == frontier_before + seen@.len(),
                forall|t: (int, Seq<char>, int)| #[trigger]
                    views(seen@).contains(t) ==> t.0 == v && universe.contains(t),
                forall|t: (int, Seq<char>, int)| #[trigger]
                    views(frontier@).contains(t) ==> views(seen@).contains(t),
                views(frontier@).no_duplicates(),
                forall|t: (int, Seq<char>, int)| #[trigger]
                    views(seen@).contains(t) && !views(frontier@).contains(t) ==> t.2 != target,
                forall|t: (int, Seq<char>, int), t2: (int, Seq<char>, int)|
                    #![trigger views(seen@).contains(t), next_state(cs, ops, t.0, t.2, t2)]
                    views(seen@).contains(t) && !views(frontier@).contains(t) && t != cur
                        && next_state(cs, ops, t.0, t.2, t2) ==> views(seen@).contains(t2),
            decreases neighbors.len() - n,
        {
            let neighbor = &neighbors[n];
            let ghost nb = neighbor@;
            proof {
                assert(views(neighbors@)[n as int] == nb);
                assert(views(neighbors@).contains(nb));
                assert(next_state(cs, ops, v, cur.2, nb));
            }
            if !contains_state(&seen, neighbor) {
                let ghost old_seen = views(seen@);
                let ghost old_frontier_n = views(frontier@);
                seen.push(neighbor.duplicate());
                frontier.push(neighbor.duplicate());
                proof {
                    assert(views(seen@) =~= old_seen.push(nb));
                    assert(views(frontier@) =~= old_frontier_n.push(nb));
                    lemma_push_contains(old_seen, nb);
                    lemma_push_contains(old_frontier_n, nb);
                    lemma_push_no_duplicates(old_seen, nb);
                    lemma_push_no_duplicates(old_frontier_n, nb);
                    let k = choose|k: int| 0 <= k < old_seen.len() && old_seen[k] == cur;
                    lemma_trail_push(cs, ops, old_seen, k, nb);
                    assert(search_trail(cs, ops, views(seen@)));
                    assert forall|t: (int, Seq<char>, int)| #[trigger]
                        views(seen@).contains(t) && !views(frontier@).contains(t) implies t.2 != target by {
                        assert(old_seen.contains(t) && !old_frontier_n.contains(t));
                    }
                    assert forall|t: (int, Seq<char>, int), t2: (int, Seq<char>, int)|
                        #![trigger views(seen@).contains(t), next_state(cs, ops, t.0, t.2, t2)]
                        views(seen@).contains(t) && !views(frontier@).contains(t) && t != cur
                            && next_state(cs, ops, t.0, t.2, t2) implies views(seen@).contains(t2) by {
                        assert(old_seen.contains(t) && !old_frontier_n.contains(t));
                        assert(old_seen.contains(t2));
                    }
                    assert(views(seen@).no_duplicates());
                    assert(views(frontier@).no_duplicates());
                    views(seen@).unique_seq_to_set();
                    assert(views(seen@).to_set().subset_of(universe));
                    lemma_len_subset(views(seen@).to_set(), universe);
                    assert forall|k: int| 0 <= k < n + 1 implies views(seen@).contains(
                        #[trigger] views(neighbors@)[k],
                    ) by {
                        if k < n {
                            assert(old_seen.contains(views(neighbors@)[k]));
                        }
                    }
                }
            }
            n = n + 1;
        }
        proof {
            assert forall|t: (int, Seq<char>, int), t2: (int, Seq<char>, int)|
                #![trigger views(seen@).contains(t), next_state(cs, ops, t.0, t.2, t2)]
                views(seen@).contains(t) && !views(frontier@).contains(t) && next_state(
                    cs,
                    ops,
                    t.0,
                    t.2,
                    t2,
                ) implies views(seen@).contains(t2) by {
                if t == cur {
                    assert(views(neighbors@).contains(t2));
                    let k = choose|k: int| 0 <= k < views(neighbors@).len() && views(neighbors@)[k] == t2;
                    assert(views(seen@).contains(views(neighbors@)[k]));
                }
            }
        }
    }
}

/// `t` reads as the plain words of `x` followed by the unary operator word `w`, where that
/// operator turns `x` into `v`.
pub open spec fn said_by_unary_word(
    cs: Seq<DictionaryConstant>,
    w: DictionaryOperator,
    x: int,
    v: int,
    t: (int, Seq<char>, int),
) -> bool {
    match w.operator {
        Operator::Unary(u) => {
            &&& u.spec_apply(x) == Ok::<int, crate::math::expression::ArithmeticErrorView>(v)
            &&& t.1 == plain_words(cs, x).1 + " "@ + w.representation@
            &&& t.2 == plain_words(cs, x).2 + w.number_of_syllables
        },
        Operator::Binary(_) => false,
    }
}

/// `t` reads as the plain words of `lhs`, the binary operator word `w` and the plain words of
/// the non-negative `rhs`, where that operator applied to `lhs` and `rhs` gives `v`.
pub open spec fn said_by_binary_word(
    cs: Seq<DictionaryConstant>,
    w: DictionaryOperator,
    lhs: int,
    rhs: int,
    v: int,
    t: (int, Seq<char>, int),
) -> bool {
    match w.operator {
        Operator::Binary(o) => {
            &&& rhs >= 0
            &&& o.spec_apply(lhs, rhs) == Ok::<int, crate::math::expression::ArithmeticErrorView>(v)
            &&& t.1 == plain_words(cs, lhs).1 + " "@ + w.representation@ + " "@ + plain_words(cs, rhs).1
            &&& t.2 == plain_words(cs, lhs).2 + w.number_of_syllables + plain_words(cs, rhs).2
        },
        Operator::Unary(_) => false,
    }
}

/// `t` says `v`: its words, one operator word of `ops` with the plain words of its operands,
/// evaluate back to `v`, and its syllable count is that of those words.
pub open spec fn says_value(
    cs: Seq<DictionaryConstant>,
    ops: Seq<DictionaryOperator>,
    v: int,
    t: (int, Seq<char>, int),
) -> bool {
    &&& t.0 == v
    &&& {
        ||| exists|i: int, x: int|
            0 <= i < ops.len() && #[trigger] said_by_unary_word(cs, ops[i], x, v, t)
        ||| exists|i: int, lhs: int, rhs: int|
            0 <= i < ops.len() && #[trigger] said_by_binary_word(cs, ops[i], lhs, rhs, v, t)
    }
}

/// Every state that one search step makes from a way to say `v` says `v`: its words
/// evaluate back to `v` (the left operand's words first, then the operator word, then the
/// right operand's words).
pub proof fn law_next_states_say_the_value(
    cs: Seq<DictionaryConstant>,
    ops: Seq<DictionaryOperator>,
    v: int,
    b: int,
    t: (int, Seq<char>, int),
)
    requires
        search_defined(cs, ops, v),
        next_state(cs, ops, v, b, t),
    ensures
        says_value(cs, ops, v, t),
{
    if exists|i: int| 0 <= i < ops.len() && #[trigger] unary_move(cs, ops[i], v, t) {
        let i = choose|i: int| 0 <= i < ops.len() && #[trigger] unary_move(cs, ops[i], v, t);
        assert(word_search_defined(cs, ops[i].operator, v));
        match ops[i].operator {
            Operator::Unary(u) => {
                let x = u.spec_get_inverse(v)->Ok_0;
                crate::math::expression::law_get_inverse_undoes_apply(u, v);
                assert(said_by_unary_word(cs, ops[i], x, v, t));
            },
            Operator::Binary(_) => {},
        }
    } else {
        let (i, lhs) = choose|i: int, lhs: int|
            0 <= i < ops.len() && #[trigger] binary_move(cs, ops[i], v, b, lhs, t);
        assert(word_search_defined(cs, ops[i].operator, v));
        match ops[i].operator {
            Operator::Binary(o) => {
                let rhs = o.spec_get_rhs(v, lhs)->Ok_0;
                crate::math::expression::law_get_rhs_solves_apply(o, v, lhs);
                assert(said_by_binary_word(cs, ops[i], lhs, rhs, v, t));
            },
            Operator::Unary(_) => {},
        }
    }
}

/// Every state that the search reaches from `start` is `start` itself or says the value of
/// `start` (see `says_value`); so does every state that `ucs` returns.
pub proof fn law_reachable_states_say_the_value(
    cs: Seq<DictionaryConstant>,
    ops: Seq<DictionaryOperator>,
    start: (int, Seq<char>, int),
    t: (int, Seq<char>, int),
)
    requires
        search_defined(cs, ops, start.0),
        reachable(cs, ops, start, t),
    ensures
        t == start || says_value(cs, ops, start.0, t),
{
    let trail = choose|trail: Seq<(int, Seq<char>, int)>|
        #[trigger] search_trail(cs, ops, trail) && trail.len() > 0 && trail[0] == start
            && trail.contains(t);
    let k = choose|k: int| 0 <= k < trail.len() && trail[k] == t;
    if k > 0 {
        lemma_trail_keeps_value(cs, ops, trail, k);
        assert(has_parent(cs, ops, trail, k));
        let j = choose|j: int|
            0 <= j < k && #[trigger] next_state(cs, ops, trail[j].0, trail[j].2, trail[k]);
        lemma_trail_keeps_value(cs, ops, trail, j);
        law_next_states_say_the_value(cs, ops, start.0, trail[j].2, t);
    }
}

/// Every state of a search trail says the value of its first state.
proof fn lemma_trail_keeps_value(
    cs: Seq<DictionaryConstant>,
    ops: Seq<DictionaryOperator>,
    trail: Seq<(int, Seq<char>, int)>,
    k: int,
)
    requires
        search_trail(cs, ops, trail),
        0 <= k < trail.len(),
    ensures
        trail[k].0 == trail[0].0,
    decreases k,
{
    if k > 0 {
        assert(has_parent(cs, ops, trail, k));
        let j = choose|j: int|
            0 <= j < k && #[trigger] next_state(cs, ops, trail[j].0, trail[j].2, trail[k]);
        lemma_trail_keeps_value(cs, ops, trail, j);
    }
}

} // verus!

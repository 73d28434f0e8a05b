use vstd::prelude::*;

use crate::math::expression::Number;
use crate::math::integer::{div_i32, fits_i32, rem_i32, trunc_div, trunc_rem};
use crate::syllables::dictionary::{
    best_constant, find_best_constant, find_constant, lemma_best_constant_range, Dictionary,
    DictionaryConstant,
};

verus! {

/// A number together with a way to say it and the number of syllables that takes.
#[derive(Debug, Clone, PartialEq, Eq, Hash)]
pub struct NumberRepresentation {
    pub value: Number,
    pub representation: String,
    pub number_of_syllables: Number,
}

impl View for NumberRepresentation {
    /// The value, the spelling and the syllable count.
    type V = (int, Seq<char>, int);

    open spec fn view(&self) -> (int, Seq<char>, int) {
        (self.value as int, self.representation@, self.number_of_syllables as int)
    }
}

impl NumberRepresentation {
    /// A copy of this representation.
    pub fn duplicate(&self) -> (r: NumberRepresentation)
        ensures
            r@ == self@,
    {
        NumberRepresentation {
            value: self.value,
            representation: self.representation.clone(),
            number_of_syllables: self.number_of_syllables,
        }
    }
}

/// The words and syllable count that the recursive conversion builds for `value`, when it
/// finishes within `fuel` nested calls; `None` when it needs more, or when it would panic
/// (a remainder that overflows, or a syllable count that leaves the `i32` range).
///
/// The conversion picks the largest non-zero constant `c` not above `value`. From 100 on it
/// first says how many times `c` fits (`value / c`), followed by a space; then it says `c`;
/// when the remainder `value % c` is positive it adds a space and the words for it. With no
/// such constant the words are empty.
pub open spec fn words_within(cs: Seq<DictionaryConstant>, value: int, fuel: nat) -> Option<
    (Seq<char>, int),
>
    decreases fuel,
{
    if fuel == 0 {
        None
    } else {
        let i = best_constant(cs, value);
        if i < 0 || i >= cs.len() {
            Some((Seq::empty(), 0))
        } else {
            let c = cs[i];
            let head: Option<(Seq<char>, int)> = if value >= 100 {
                match words_within(cs, trunc_div(value, c.value as int), (fuel - 1) as nat) {
                    Some(m) => Some((m.0 + " "@, m.1)),
                    None => None,
                }
            } else {
                Some((Seq::empty(), 0))
            };
            match head {
                None => None,
                Some(h) => {
                    let with_base = h.1 + c.number_of_syllables;
                    if !fits_i32(with_base) || (value == i32::MIN && c.value == -1) {
                        None
                    } else if trunc_rem(value, c.value as int) > 0 {
                        match words_within(
                            cs,
                            trunc_rem(value, c.value as int),
                            (fuel - 1) as nat,
                        ) {
                            Some(t) => if fits_i32(with_base + t.1) {
                                Some((h.0 + c.representation@ + " "@ + t.0, with_base + t.1))
                            } else {
                                None
                            },
                            None => None,
                        }
                    } else {
                        Some((h.0 + c.representation@, with_base))
                    }
                },
            }
        }
    }
}

/// The conversion of `value` finishes without a panic.
pub open spec fn words_defined(cs: Seq<DictionaryConstant>, value: int) -> bool {
    exists|fuel: nat| #[trigger] words_within(cs, value, fuel).is_some()
}

/// The words and syllable count for `value` (meaningful when `words_defined`).
pub open spec fn spec_words(cs: Seq<DictionaryConstant>, value: int) -> (Seq<char>, int) {
    words_within(cs, value, choose|fuel: nat| #[trigger] words_within(cs, value, fuel).is_some())->Some_0
}

/// What `value_to_words` gives for `value`: the dictionary's own entry for zero, the
/// built-up words otherwise.
pub open spec fn spec_value_to_words(cs: Seq<DictionaryConstant>, value: int) -> Option<
    (int, Seq<char>, int),
> {
    if value == 0 {
        match find_constant(cs, 0) {
            Some(c) => Some((c.value as int, c.representation@, c.number_of_syllables as int)),
            None => None,
        }
    } else {
        Some((value, spec_words(cs, value).0, spec_words(cs, value).1))
    }
}

/// More fuel does not change a conversion that has finished.
pub proof fn lemma_words_fuel(cs: Seq<DictionaryConstant>, value: int, fuel: nat, more: nat)
    requires
        words_within(cs, value, fuel).is_some(),
        fuel <= more,
    ensures
        words_within(cs, value, more) == words_within(cs, value, fuel),
    decreases fuel,
{
    if fuel > 0 {
        let i = best_constant(cs, value);
        if 0 <= i < cs.len() {
            let c = cs[i];
            if value >= 100 {
                lemma_words_fuel(
                    cs,
                    trunc_div(value, c.value as int),
                    (fuel - 1) as nat,
                    (more - 1) as nat,
                );
            }
            if !(value == i32::MIN && c.value == -1) && trunc_rem(value, c.value as int) > 0 {
                if words_within(cs, trunc_rem(value, c.value as int), (fuel - 1) as nat).is_some() {
                    lemma_words_fuel(
                        cs,
                        trunc_rem(value, c.value as int),
                        (fuel - 1) as nat,
                        (more - 1) as nat,
                    );
                }
            }
        }
    }
}

/// Any fuel with which the conversion finishes gives the result `spec_words` names.
pub proof fn lemma_spec_words(cs: Seq<DictionaryConstant>, value: int, fuel: nat)
    requires
        words_within(cs, value, fuel).is_some(),
    ensures
        words_defined(cs, value),
        words_within(cs, value, fuel) == Some(spec_words(cs, value)),
{
    let f = choose|f: nat| #[trigger] words_within(cs, value, f).is_some();
    if f <= fuel {
        lemma_words_fuel(cs, value, f, fuel);
    } else {
        lemma_words_fuel(cs, value, fuel, f);
    }
}

fn value_to_words_recursive(value: Number, dictionary: &Dictionary, Ghost(fuel): Ghost<nat>) -> (r:
    NumberRepresentation)
    requires
        words_within(dictionary.constants@, value as int, fuel).is_some(),
    ensures
        r@ == (
            value as int,
            words_within(dictionary.constants@, value as int, fuel)->Some_0.0,
            words_within(dictionary.constants@, value as int, fuel)->Some_0.1,
        ),
    decreases fuel,
{
    let ghost cs = dictionary.constants@;
    let mut result = NumberRepresentation {
        value,
        representation: String::new(),
        number_of_syllables: 0,
    };
    proof {
        lemma_best_constant_range(cs, value as int);
    }
    match find_best_constant(&dictionary.constants, value) {
        None => {
            proof {
                assert(result.representation@ =~= Seq::<char>::empty());
            }
            result
        },
        Some(i) => {
            let constant = &dictionary.constants[i];
            if value >= 100 {
                let new = value_to_words_recursive(
                    div_i32(value, constant.value),
                    dictionary,
                    Ghost((fuel - 1) as nat),
                );
                result.representation.append(new.representation.as_str());
                result.representation.append(" ");
                result.number_of_syllables = new.number_of_syllables;
            } else {
                proof {
                    assert(result.representation@ =~= Seq::<char>::empty());
                }
            }
            result.representation.append(constant.representation.as_str());
            result.number_of_syllables = result.number_of_syllables + constant.number_of_syllables;
            let remainder = rem_i32(value, constant.value);
            if remainder > 0 {
                let new = value_to_words_recursive(
                    remainder,
                    dictionary,
                    Ghost((fuel - 1) as nat),
                );
                result.representation.append(" ");
                result.representation.append(new.representation.as_str());
                result.number_of_syllables = result.number_of_syllables + new.number_of_syllables;
            }
            proof {
                assert(result.representation@ =~= words_within(cs, value as int, fuel)->Some_0.0);
            }
            result
        },
    }
}

/// The words for `value`: the dictionary's entry for zero (`None` when it has none), and
/// for any other value the words built from its constants.
pub fn value_to_words(value: Number, dictionary: &Dictionary) -> (r: Option<NumberRepresentation>)
    requires
        value == 0 || words_defined(dictionary.constants@, value as int),
    ensures
        match r {
            Some(n) => spec_value_to_words(dictionary.constants@, value as int) == Some(n@),
            None => spec_value_to_words(dictionary.constants@, value as int).is_none(),
        },
{
    if value == 0 {
        return match dictionary.get_from_value(0) {
            Some(c) => Some(
                NumberRepresentation {
                    value: c.value,
                    representation: c.representation,
                    number_of_syllables: c.number_of_syllables,
                },
            ),
            None => None,
        };
    }
    let ghost fuel = choose|fuel: nat| #[trigger]
        words_within(dictionary.constants@, value as int, fuel).is_some();
    proof {
        lemma_spec_words(dictionary.constants@, value as int, fuel);
    }
    Some(value_to_words_recursive(value, dictionary, Ghost(fuel)))
}

/// The plain words of a positive `value` are built around its constant `c` (the largest
/// non-zero one not above it): from 100 on, the words of `value / c` and a space come first
/// ("two hundred"); then the word for `c`; then, when `value % c` is positive, a space and
/// the words of that remainder ("forty five"). The syllables add up.
pub proof fn law_plain_words_layout(
    cs: Seq<DictionaryConstant>,
    value: int,
    fuel: nat,
    multiplier: (Seq<char>, int),
    remainder: (Seq<char>, int),
)
    requires
        value >= 1,
        0 <= best_constant(cs, value) < cs.len(),
        value >= 100 ==> words_within(
            cs,
            trunc_div(value, cs[best_constant(cs, value)].value as int),
            fuel,
        ) == Some(multiplier),
        trunc_rem(value, cs[best_constant(cs, value)].value as int) > 0 ==> words_within(
            cs,
            trunc_rem(value, cs[best_constant(cs, value)].value as int),
            fuel,
        ) == Some(remainder),
        words_within(cs, value, fuel + 1) is Some,
    ensures
        words_within(cs, value, fuel + 1) == Some(
            {
                let c = cs[best_constant(cs, value)];
                let r = trunc_rem(value, c.value as int);
                let head: (Seq<char>, int) = if value >= 100 {
                    (multiplier.0 + " "@, multiplier.1)
                } else {
                    (Seq::empty(), 0)
                };
                if r > 0 {
                    (
                        head.0 + c.representation@ + " "@ + remainder.0,
                        head.1 + c.number_of_syllables + remainder.1,
                    )
                } else {
                    (head.0 + c.representation@, head.1 + c.number_of_syllables)
                }
            },
        ),
{
}

} // verus!

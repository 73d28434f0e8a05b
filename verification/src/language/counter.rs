use vstd::prelude::*;

use crate::language::dictionary::{
    best_constant, find_best_constant, find_constant, lemma_best_constant_range, Dictionary,
    DictionaryConstant,
};
use crate::math::expression::Number;
use crate::math::integer::{div_i32, fits_i32, rem_i32, trunc_div, trunc_rem};

verus! {

/// A number together with a way to say it and the number of syllables that takes.
#[derive(PartialEq, Eq, Debug, Clone, Hash)]
pub struct NumberRepresentation {
    pub value: Number,
    pub representation: String,
    pub number_of_syllables: Number,
}

impl View for NumberRepresentation {
    /// The value, the spelling and the syllable count.
    type V = (int, Seq<char>, int);

    open spec fn view(&self) -> (int, Seq<char>, int) {
        (self.value as int, self.representation@, self.number_of_syllables as int)
    }
}

/// A piece of text and the number of syllables it takes to say it.
pub struct StringWithSyllableCount {
    pub inner: String,
    pub number_of_syllables: Number,
}

/// How a language puts number words together.
pub trait NumberCompositionRules {
    /// Whether a multiplier word comes before `base` (Dutch: "honderd" but "tweehonderd").
    spec fn spec_needs_multiplier(&self, value: int, base: int) -> bool;

    /// The text (and syllables) between the multiplier and the base.
    spec fn spec_multiplier_separator(&self) -> (Seq<char>, int);

    /// The text (and syllables) between the base and the remainder.
    spec fn spec_remainder_separator(&self, base: int) -> (Seq<char>, int);

    /// Whether the remainder is said before the base ("eenentwintig").
    spec fn spec_remainder_before_base(&self, base: int) -> bool;

    fn needs_multiplier(&self, value: Number, base: Number) -> (r: bool)
        requires
            base != 0,
            !(value == i32::MIN && base == -1),
        ensures
            r == self.spec_needs_multiplier(value as int, base as int),
    ;

    fn multiplier_separator(&self) -> (r: StringWithSyllableCount)
        ensures
            (r.inner@, r.number_of_syllables as int) == self.spec_multiplier_separator(),
    ;

    fn remainder_separator(&self, base: Number) -> (r: StringWithSyllableCount)
        ensures
            (r.inner@, r.number_of_syllables as int) == self.spec_remainder_separator(base as int),
    ;

    fn remainder_before_base(&self, base: Number) -> (r: bool)
        ensures
            r == self.spec_remainder_before_base(base as int),
    ;
}

/// English: "four hundred twenty", words separated by spaces.
pub struct EnglishRules;

impl NumberCompositionRules for EnglishRules {
    open spec fn spec_needs_multiplier(&self, value: int, base: int) -> bool {
        base >= 100
    }

    open spec fn spec_multiplier_separator(&self) -> (Seq<char>, int) {
        (" "@, 0)
    }

    open spec fn spec_remainder_separator(&self, base: int) -> (Seq<char>, int) {
        (" "@, 0)
    }

    open spec fn spec_remainder_before_base(&self, base: int) -> bool {
        false
    }

    fn needs_multiplier(&self, _value: Number, base: Number) -> (r: bool) {
        base >= 100
    }

    fn multiplier_separator(&self) -> (r: StringWithSyllableCount) {
        StringWithSyllableCount { inner: String::from_str(" "), number_of_syllables: 0 }
    }

    fn remainder_separator(&self, _base: Number) -> (r: StringWithSyllableCount) {
        StringWithSyllableCount { inner: String::from_str(" "), number_of_syllables: 0 }
    }

    fn remainder_before_base(&self, _base: Number) -> (r: bool) {
        false
    }
}

/// Dutch: everything written together ("vierhonderdtwintig") except after a thousand.
pub struct DutchRules;

impl NumberCompositionRules for DutchRules {
    open spec fn spec_needs_multiplier(&self, value: int, base: int) -> bool {
        base >= 100 && trunc_div(value, base) > 1
    }

    open spec fn spec_multiplier_separator(&self) -> (Seq<char>, int) {
        (""@, 0)
    }

    open spec fn spec_remainder_separator(&self, base: int) -> (Seq<char>, int) {
        if base < 100 {
            ("en"@, 1)
        } else if base < 1000 {
            (""@, 0)
        } else {
            (" "@, 0)
        }
    }

    open spec fn spec_remainder_before_base(&self, base: int) -> bool {
        20 <= base < 100
    }

    fn needs_multiplier(&self, value: Number, base: Number) -> (r: bool) {
        // No multiplier for 100 (honderd), but we do need one for 200 (tweehonderd)
        let multiplier = div_i32(value, base);
        base >= 100 && multiplier > 1
    }

    fn multiplier_separator(&self) -> (r: StringWithSyllableCount) {
        StringWithSyllableCount { inner: String::from_str(""), number_of_syllables: 0 }
    }

    fn remainder_separator(&self, base: Number) -> (r: StringWithSyllableCount) {
        if base < 100 {
            // vijfentwintig
            StringWithSyllableCount { inner: String::from_str("en"), number_of_syllables: 1 }
        } else if base < 1000 {
            // honderdtweeentwintig
            StringWithSyllableCount { inner: String::from_str(""), number_of_syllables: 0 }
        } else {
            StringWithSyllableCount { inner: String::from_str(" "), number_of_syllables: 0 }
        }
    }

    fn remainder_before_base(&self, base: Number) -> (r: bool) {
        20 <= base && base < 100
    }
}

/// The languages whose number words can be composed.
pub enum LanguageRuleset {
    English(EnglishRules),
    Dutch(DutchRules),
}

/// A ruleset follows the rules of its language.
impl NumberCompositionRules for LanguageRuleset {
    open spec fn spec_needs_multiplier(&self, value: int, base: int) -> bool {
        match self {
            LanguageRuleset::English(r) => r.spec_needs_multiplier(value, base),
            LanguageRuleset::Dutch(r) => r.spec_needs_multiplier(value, base),
        }
    }

    open spec fn spec_multiplier_separator(&self) -> (Seq<char>, int) {
        match self {
            LanguageRuleset::English(r) => r.spec_multiplier_separator(),
            LanguageRuleset::Dutch(r) => r.spec_multiplier_separator(),
        }
    }

    open spec fn spec_remainder_separator(&self, base: int) -> (Seq<char>, int) {
        match self {
            LanguageRuleset::English(r) => r.spec_remainder_separator(base),
            LanguageRuleset::Dutch(r) => r.spec_remainder_separator(base),
        }
    }

    open spec fn spec_remainder_before_base(&self, base: int) -> bool {
        match self {
            LanguageRuleset::English(r) => r.spec_remainder_before_base(base),
            LanguageRuleset::Dutch(r) => r.spec_remainder_before_base(base),
        }
    }

    fn needs_multiplier(&self, value: Number, base: Number) -> (r: bool) {
        match self {
            LanguageRuleset::English(rules) => rules.needs_multiplier(value, base),
            LanguageRuleset::Dutch(rules) => rules.needs_multiplier(value, base),
        }
    }

    fn multiplier_separator(&self) -> (r: StringWithSyllableCount) {
        match self {
            LanguageRuleset::English(rules) => rules.multiplier_separator(),
            LanguageRuleset::Dutch(rules) => rules.multiplier_separator(),
        }
    }

    fn remainder_separator(&self, base: Number) -> (r: StringWithSyllableCount) {
        match self {
            LanguageRuleset::English(rules) => rules.remainder_separator(base),
            LanguageRuleset::Dutch(rules) => rules.remainder_separator(base),
        }
    }

    fn remainder_before_base(&self, base: Number) -> (r: bool) {
        match self {
            LanguageRuleset::English(rules) => rules.remainder_before_base(base),
            LanguageRuleset::Dutch(rules) => rules.remainder_before_base(base),
        }
    }
}

/// Joins the parts in order: their texts concatenated, their syllables added up one by one;
/// `None` when a running total leaves the `i32` range.
pub open spec fn combine_parts(parts: Seq<(Seq<char>, int)>) -> Option<(Seq<char>, int)>
    decreases parts.len(),
{
    if parts.len() == 0 {
        Some((Seq::empty(), 0))
    } else {
        match combine_parts(parts.drop_last()) {
            Some(acc) => if fits_i32(acc.1 + parts.last().1) {
                Some((acc.0 + parts.last().0, acc.1 + parts.last().1))
            } else {
                None
            },
            None => None,
        }
    }
}

/// The parts that the recursive conversion of `value` joins when it builds its words around
/// constant `c`, given the results of the nested conversions of `value / c` (`multiplier`)
/// and `value % c` (`remainder`).
pub open spec fn composition_parts(
    rules: LanguageRuleset,
    value: int,
    c: DictionaryConstant,
    multiplier: Option<(Seq<char>, int)>,
    remainder: Option<(Seq<char>, int)>,
) -> Seq<(Seq<char>, int)> {
    let r = trunc_rem(value, c.value as int);
    let said = |w: Option<(Seq<char>, int)>|
        match w {
            Some(t) => seq![t],
            None => Seq::<(Seq<char>, int)>::empty(),
        };
    let a = if rules.spec_needs_multiplier(value, c.value as int) {
        said(multiplier) + seq![rules.spec_multiplier_separator()]
    } else {
        Seq::empty()
    };
    let b = if r > 0 && rules.spec_remainder_before_base(c.value as int) {
        said(remainder) + seq![rules.spec_remainder_separator(c.value as int)]
    } else {
        Seq::empty()
    };
    let d = if r > 0 && !rules.spec_remainder_before_base(c.value as int) {
        seq![rules.spec_remainder_separator(c.value as int)] + said(remainder)
    } else {
        Seq::empty()
    };
    a + b + seq![(c.representation@, c.number_of_syllables as int)] + d
}

/// What the recursive conversion of `value` returns when it finishes within `fuel` nested
/// calls (`Some(None)`: no constant fits); `None` when it needs more, or would panic on an
/// overflowing syllable count.
///
/// It picks the largest non-zero constant `c` not above `value`. When the rules ask for a
/// multiplier it says `value / c` (if it can) and the multiplier separator; a positive
/// remainder `value % c` is said (if it can) before or after `c`, with the remainder
/// separator between them.
pub open spec fn composed_within(
    rules: LanguageRuleset,
    cs: Seq<DictionaryConstant>,
    value: int,
    fuel: nat,
) -> Option<Option<(Seq<char>, int)>>
    decreases fuel,
{
    if fuel == 0 {
        None
    } else {
        let i = best_constant(cs, value);
        if i < 0 || i >= cs.len() {
            Some(None)
        } else {
            let c = cs[i];
            let q = trunc_div(value, c.value as int);
            let r = trunc_rem(value, c.value as int);
            let m = if rules.spec_needs_multiplier(value, c.value as int) {
                composed_within(rules, cs, q, (fuel - 1) as nat)
            } else {
                Some(None)
            };
            let t = if r > 0 {
                composed_within(rules, cs, r, (fuel - 1) as nat)
            } else {
                Some(None)
            };
            match (m, t) {
                (Some(mw), Some(tw)) => match combine_parts(composition_parts(rules, value, c, mw, tw)) {
                    Some(w) => Some(Some(w)),
                    None => None,
                },
                _ => None,
            }
        }
    }
}

/// The conversion of `value` finishes without a panic.
pub open spec fn composed_defined(rules: LanguageRuleset, cs: Seq<DictionaryConstant>, value: int) -> bool {
    exists|fuel: nat| #[trigger] composed_within(rules, cs, value, fuel).is_some()
}

/// What the conversion of `value` returns (meaningful when `composed_defined`).
pub open spec fn spec_composed(rules: LanguageRuleset, cs: Seq<DictionaryConstant>, value: int) -> Option<
    (Seq<char>, int),
> {
    composed_within(
        rules,
        cs,
        value,
        choose|fuel: nat| #[trigger] composed_within(rules, cs, value, fuel).is_some(),
    )->Some_0
}

/// What `value_to_words` gives: the dictionary's entry for zero, nothing for a negative
/// value, and the composed words otherwise.
pub open spec fn spec_value_to_words(
    rules: LanguageRuleset,
    cs: Seq<DictionaryConstant>,
    value: int,
) -> Option<(int, Seq<char>, int)> {
    if value == 0 {
        match find_constant(cs, 0) {
            Some(c) => Some((c.value as int, c.representation@, c.number_of_syllables as int)),
            None => None,
        }
    } else if value < 0 {
        None
    } else {
        match spec_composed(rules, cs, value) {
            Some(w) => Some((value, w.0, w.1)),
            None => None,
        }
    }
}

/// More fuel does not change a conversion that has finished.
pub proof fn lemma_composed_fuel(
    rules: LanguageRuleset,
    cs: Seq<DictionaryConstant>,
    value: int,
    fuel: nat,
    more: nat,
)
    requires
        composed_within(rules, cs, value, fuel).is_some(),
        fuel <= more,
    ensures
        composed_within(rules, cs, value, more) == composed_within(rules, cs, value, fuel),
    decreases fuel,
{
    let i = best_constant(cs, value);
    if 0 <= i < cs.len() {
        let c = cs[i];
        let q = trunc_div(value, c.value as int);
        let r = trunc_rem(value, c.value as int);
        if rules.spec_needs_multiplier(value, c.value as int) {
            lemma_composed_fuel(rules, cs, q, (fuel - 1) as nat, (more - 1) as nat);
        }
        if r > 0 {
            lemma_composed_fuel(rules, cs, r, (fuel - 1) as nat, (more - 1) as nat);
        }
    }
}

/// Any fuel with which the conversion finishes gives the result `spec_composed` names.
pub proof fn lemma_spec_composed(
    rules: LanguageRuleset,
    cs: Seq<DictionaryConstant>,
    value: int,
    fuel: nat,
)
    requires
        composed_within(rules, cs, value, fuel).is_some(),
    ensures
        composed_defined(rules, cs, value),
        composed_within(rules, cs, value, fuel) == Some(spec_composed(rules, cs, value)),
{
    let f = choose|f: nat| #[trigger] composed_within(rules, cs, value, f).is_some();
    if f <= fuel {
        lemma_composed_fuel(rules, cs, value, f, fuel);
    } else {
        lemma_composed_fuel(rules, cs, value, fuel, f);
    }
}

/// A joined prefix of parts that join without overflow joins without overflow too.
proof fn lemma_combine_prefix(parts: Seq<(Seq<char>, int)>, k: int)
    requires
        combine_parts(parts).is_some(),
        0 <= k <= parts.len(),
    ensures
        combine_parts(parts.take(k)).is_some(),
    decreases parts.len(),
{
    if k < parts.len() {
        assert(parts.drop_last().take(k) =~= parts.take(k));
        lemma_combine_prefix(parts.drop_last(), k);
    } else {
        assert(parts.take(k) =~= parts);
    }
}

/// The mathematical content of a list of parts.
pub open spec fn parts_view(parts: Seq<(String, Number)>) -> Seq<(Seq<char>, int)> {
    parts.map_values(|p: (String, Number)| (p.0@, p.1 as int))
}

fn push_part(parts: &mut Vec<(String, Number)>, text: String, number_of_syllables: Number)
    ensures
        parts_view(final(parts)@) == parts_view(old(parts)@).push((text@, number_of_syllables as int)),
{
    parts.push((text, number_of_syllables));
    proof {
        assert(parts_view(parts@) =~= parts_view(old(parts)@).push((text@, number_of_syllables as int)));
    }
}

fn push_words(parts: &mut Vec<(String, Number)>, words: Option<NumberRepresentation>)
    ensures
        parts_view(final(parts)@) == parts_view(old(parts)@) + match words {
            Some(w) => seq![(w.representation@, w.number_of_syllables as int)],
            None => Seq::<(Seq<char>, int)>::empty(),
        },
{
    match words {
        Some(w) => {
            push_part(parts, w.representation, w.number_of_syllables);
            proof {
                assert(parts_view(parts@) =~= parts_view(old(parts)@) + seq![
                    (w.representation@, w.number_of_syllables as int),
                ]);
            }
        },
        None => {
            proof {
                assert(parts_view(parts@) =~= parts_view(old(parts)@) + Seq::<(Seq<char>, int)>::empty());
            }
        },
    }
}

/// Joins the parts: texts concatenated, syllables added up in order.
fn join_parts(value: Number, parts: Vec<(String, Number)>) -> (r: NumberRepresentation)
    requires
        combine_parts(parts_view(parts@)).is_some(),
    ensures
        r@ == (value as int, combine_parts(parts_view(parts@))->Some_0.0, combine_parts(
            parts_view(parts@),
        )->Some_0.1),
{
    let mut result = NumberRepresentation {
        value,
        representation: String::new(),
        number_of_syllables: 0,
    };
    let ghost pv = parts_view(parts@);
    let mut k: usize = 0;
    proof {
        assert(pv.take(0) =~= Seq::<(Seq<char>, int)>::empty());
    }
    while k < parts.len()
        invariant
            k <= parts@.len(),
            pv == parts_view(parts@),
            combine_parts(pv).is_some(),
            combine_parts(pv.take(k as int)) == Some(
                (result.representation@, result.number_of_syllables as int),
            ),
            result.value == value,
        decreases parts.len() - k,
    {
        proof {
            lemma_combine_prefix(pv, k + 1);
            assert(pv.take(k + 1).drop_last() =~= pv.take(k as int));
        }
        let (text, number_of_syllables) = (&parts[k].0, parts[k].1);
        result.representation.append(text.as_str());
        result.number_of_syllables = result.number_of_syllables + number_of_syllables;
        k = k + 1;
    }
    proof {
        assert(pv.take(parts@.len() as int) =~= pv);
    }
    result
}

impl LanguageRuleset {
    /// The words for `value` in this language: the dictionary's entry for zero, nothing for a
    /// negative value, and for a positive one the words composed from the dictionary's
    /// constants (nothing when no constant fits).
    pub fn value_to_words(&self, value: Number, dictionary: &Dictionary) -> (r: Option<
        NumberRepresentation,
    >)
        requires
            value <= 0 || composed_defined(*self, dictionary.constants@, value as int),
        ensures
            match r {
                Some(n) => spec_value_to_words(*self, dictionary.constants@, value as int) == Some(n@),
                None => spec_value_to_words(*self, dictionary.constants@, value as int).is_none(),
            },
    {
        // Special case for zero: in `value_to_words_recursive`, we can't have `n % 0` happening.
        if value == 0 {
            return match dictionary.get_from_value(0) {
                Some(c) => Some(
                    NumberRepresentation {
                        value: c.value,
                        representation: c.representation,
                        number_of_syllables: c.number_of_syllables,
                    },
                ),
                None => None,
            };
        }
        // Do not support negative values
        if value < 0 {
            return None;
        }
        let ghost fuel = choose|fuel: nat| #[trigger]
            composed_within(*self, dictionary.constants@, value as int, fuel).is_some();
        proof {
            lemma_spec_composed(*self, dictionary.constants@, value as int, fuel);
        }
        self.value_to_words_recursive(value, dictionary, Ghost(fuel))
    }

    fn value_to_words_recursive(
        &self,
        value: Number,
        dictionary: &Dictionary,
        Ghost(fuel): Ghost<nat>,
    ) -> (r: Option<NumberRepresentation>)
        requires
            composed_within(*self, dictionary.constants@, value as int, fuel).is_some(),
        ensures
            match r {
                Some(n) => n.value == value && composed_within(
                    *self,
                    dictionary.constants@,
                    value as int,
                    fuel,
                ) == Some(Some((n.representation@, n.number_of_syllables as int))),
                None => composed_within(*self, dictionary.constants@, value as int, fuel) == Some(
                    None::<(Seq<char>, int)>,
                ),
            },
        decreases fuel,
    {
        let ghost cs = dictionary.constants@;
        proof {
            lemma_best_constant_range(cs, value as int);
        }
        let i = match find_best_constant(&dictionary.constants, value) {
            None => {
                return None;
            },
            Some(i) => i,
        };
        let constant = &dictionary.constants[i];
        let multiplier = div_i32(value, constant.value);
        let remainder = rem_i32(value, constant.value);

        // Build up the representation using parts
        let mut parts: Vec<(String, Number)> = Vec::new();
        proof {
            assert(parts_view(parts@) =~= Seq::<(Seq<char>, int)>::empty());
        }
        let ghost mw: Option<(Seq<char>, int)> = None;
        let ghost tw: Option<(Seq<char>, int)> = None;

        // Apply language-specific rules
        if self.needs_multiplier(value, constant.value) {
            let m = self.value_to_words_recursive(multiplier, dictionary, Ghost((fuel - 1) as nat));
            proof {
                mw = composed_within(*self, cs, multiplier as int, (fuel - 1) as nat)->Some_0;
            }
            push_words(&mut parts, m);
            let separator = self.multiplier_separator();
            push_part(&mut parts, separator.inner, separator.number_of_syllables);
        }
        let mut remainder_words: Option<NumberRepresentation> = None;
        if remainder > 0 {
            remainder_words = self.value_to_words_recursive(
                remainder,
                dictionary,
                Ghost((fuel - 1) as nat),
            );
            proof {
                tw = composed_within(*self, cs, remainder as int, (fuel - 1) as nat)->Some_0;
            }
        }
        let before = self.remainder_before_base(constant.value);
        if remainder > 0 && before {
            push_words(&mut parts, remainder_words);
            let separator = self.remainder_separator(constant.value);
            push_part(&mut parts, separator.inner, separator.number_of_syllables);
            push_part(&mut parts, constant.representation.clone(), constant.number_of_syllables);
        } else {
            push_part(&mut parts, constant.representation.clone(), constant.number_of_syllables);
            if remainder > 0 {
                let separator = self.remainder_separator(constant.value);
                push_part(&mut parts, separator.inner, separator.number_of_syllables);
                push_words(&mut parts, remainder_words);
            }
        }
        proof {
            let expected = composition_parts(*self, value as int, cs[i as int], mw, tw);
            assert(parts_view(parts@) =~= expected);
        }
        // Combine everything
        Some(join_parts(value, parts))
    }
}

/// The words for `value` in the language of `ruleset`.
pub fn value_to_words(value: Number, dictionary: &Dictionary, ruleset: &LanguageRuleset) -> (r:
    Option<NumberRepresentation>)
    requires
        value <= 0 || composed_defined(*ruleset, dictionary.constants@, value as int),
    ensures
        match r {
            Some(n) => spec_value_to_words(*ruleset, dictionary.constants@, value as int) == Some(n@),
            None => spec_value_to_words(*ruleset, dictionary.constants@, value as int).is_none(),
        },
{
    ruleset.value_to_words(value, dictionary)
}

/// Dutch says the unit before the tens: when the constant picked for `value` is a tens word
/// from 20 up to (not including) 100 and leaves a positive remainder, the words are those of
/// the remainder, "en" and the tens word ("vijfenzestig", "negenennegentig").
pub proof fn law_dutch_unit_before_tens(
    cs: Seq<DictionaryConstant>,
    value: int,
    fuel: nat,
    unit: (Seq<char>, int),
)
    requires
        0 <= best_constant(cs, value) < cs.len(),
        20 <= cs[best_constant(cs, value)].value < 100,
        trunc_rem(value, cs[best_constant(cs, value)].value as int) > 0,
        composed_within(
            LanguageRuleset::Dutch(DutchRules),
            cs,
            trunc_rem(value, cs[best_constant(cs, value)].value as int),
            fuel,
        ) == Some(Some(unit)),
        fits_i32(unit.1),
        fits_i32(unit.1 + 1),
        fits_i32(unit.1 + 1 + cs[best_constant(cs, value)].number_of_syllables),
    ensures
        composed_within(LanguageRuleset::Dutch(DutchRules), cs, value, fuel + 1) == Some(
            Some(
                (
                    unit.0 + "en"@ + cs[best_constant(cs, value)].representation@,
                    unit.1 + 1 + cs[best_constant(cs, value)].number_of_syllables,
                ),
            ),
        ),
{
    let rules = LanguageRuleset::Dutch(DutchRules);
    let c = cs[best_constant(cs, value)];
    let parts = seq![unit, ("en"@, 1int), (c.representation@, c.number_of_syllables as int)];
    assert(composition_parts(rules, value, c, None, Some(unit)) =~= parts);
    reveal_with_fuel(combine_parts, 4);
    assert(parts.drop_last().drop_last().drop_last() =~= Seq::<(Seq<char>, int)>::empty());
    assert(combine_parts(parts.drop_last().drop_last()) == Some((unit.0, unit.1))) by {
        assert(parts.drop_last().drop_last().last() == unit);
        assert(Seq::<char>::empty() + unit.0 =~= unit.0);
    }
    assert(combine_parts(parts) == Some(
        (unit.0 + "en"@ + c.representation@, unit.1 + 1 + c.number_of_syllables),
    ));
}

/// The words of a nested conversion as parts: one part when there are words, none otherwise.
pub open spec fn words_part(w: Option<(Seq<char>, int)>) -> Seq<(Seq<char>, int)> {
    match w {
        Some(t) => seq![t],
        None => Seq::empty(),
    }
}

/// The texts of `parts`, one after the other.
pub open spec fn parts_text(parts: Seq<(Seq<char>, int)>) -> Seq<char>
    decreases parts.len(),
{
    if parts.len() == 0 {
        Seq::empty()
    } else {
        parts_text(parts.drop_last()) + parts.last().0
    }
}

/// The syllables of `parts`, added up.
pub open spec fn parts_syllables(parts: Seq<(Seq<char>, int)>) -> int
    decreases parts.len(),
{
    if parts.len() == 0 {
        0
    } else {
        parts_syllables(parts.drop_last()) + parts.last().1
    }
}

/// Joining parts gives their texts one after the other and their syllables added up.
pub proof fn law_combine_parts_joins(parts: Seq<(Seq<char>, int)>)
    ensures
        combine_parts(parts) matches Some(w) ==> w == (parts_text(parts), parts_syllables(parts)),
    decreases parts.len(),
{
    if parts.len() > 0 {
        law_combine_parts_joins(parts.drop_last());
    }
}

/// How Dutch lays out the words of `value` around its constant `c`, with the words of the
/// multiplier `value / c` and of the remainder `value % c`: from 200 on the multiplier is
/// written against the base ("tweehonderd", but "honderd"); a unit comes before a tens word
/// from 20 to 90, joined by "en" ("vijfenzestig"); after a smaller base the remainder follows
/// "en", after hundreds it is written against them ("honderdtwintig"), and after a thousand
/// or more it follows a space.
pub open spec fn dutch_parts(
    value: int,
    c: DictionaryConstant,
    multiplier: Option<(Seq<char>, int)>,
    remainder: Option<(Seq<char>, int)>,
) -> Seq<(Seq<char>, int)> {
    let q = trunc_div(value, c.value as int);
    let r = trunc_rem(value, c.value as int);
    let base = (c.representation@, c.number_of_syllables as int);
    let head = if c.value >= 100 && q > 1 {
        words_part(multiplier) + seq![(""@, 0int)]
    } else {
        Seq::empty()
    };
    if r <= 0 {
        head.push(base)
    } else if 20 <= c.value < 100 {
        head + words_part(remainder) + seq![("en"@, 1int), base]
    } else if c.value < 100 {
        head + seq![base, ("en"@, 1int)] + words_part(remainder)
    } else if c.value < 1000 {
        head + seq![base, (""@, 0int)] + words_part(remainder)
    } else {
        head + seq![base, (" "@, 0int)] + words_part(remainder)
    }
}

/// How English lays out the words of `value` around its constant `c`: from a hundred on the
/// multiplier comes first, followed by a space ("one hundred", "two thousand"); a remainder
/// follows the base after a space ("forty five").
pub open spec fn english_parts(
    value: int,
    c: DictionaryConstant,
    multiplier: Option<(Seq<char>, int)>,
    remainder: Option<(Seq<char>, int)>,
) -> Seq<(Seq<char>, int)> {
    let r = trunc_rem(value, c.value as int);
    let base = (c.representation@, c.number_of_syllables as int);
    let head = if c.value >= 100 {
        words_part(multiplier) + seq![(" "@, 0int)]
    } else {
        Seq::empty()
    };
    if r <= 0 {
        head.push(base)
    } else {
        head + seq![base, (" "@, 0int)] + words_part(remainder)
    }
}

/// The Dutch rules compose the words of every value as `dutch_parts` lays them out.
pub proof fn law_dutch_layout(
    value: int,
    c: DictionaryConstant,
    multiplier: Option<(Seq<char>, int)>,
    remainder: Option<(Seq<char>, int)>,
)
    ensures
        composition_parts(LanguageRuleset::Dutch(DutchRules), value, c, multiplier, remainder)
            == dutch_parts(value, c, multiplier, remainder),
{
    assert(composition_parts(LanguageRuleset::Dutch(DutchRules), value, c, multiplier, remainder)
        =~= dutch_parts(value, c, multiplier, remainder));
}

/// The English rules compose the words of every value as `english_parts` lays them out.
pub proof fn law_english_layout(
    value: int,
    c: DictionaryConstant,
    multiplier: Option<(Seq<char>, int)>,
    remainder: Option<(Seq<char>, int)>,
)
    ensures
        composition_parts(LanguageRuleset::English(EnglishRules), value, c, multiplier, remainder)
            == english_parts(value, c, multiplier, remainder),
{
    assert(composition_parts(LanguageRuleset::English(EnglishRules), value, c, multiplier, remainder)
        =~= english_parts(value, c, multiplier, remainder));
}

} // verus!

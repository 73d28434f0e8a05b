use fastest_numbers::language::counter::{
    value_to_words, DutchRules, EnglishRules, LanguageRuleset, NumberRepresentation,
};
use fastest_numbers::language::dictionary::{Dictionary, DictionaryConstant};

fn constant(value: i32, representation: &str, number_of_syllables: i32) -> DictionaryConstant {
    DictionaryConstant {
        value,
        representation: representation.to_string(),
        number_of_syllables,
    }
}

fn create_dictionary_english() -> Dictionary {
    Dictionary {
        constants: vec![
            constant(0, "zero", 2),
            constant(1, "one", 1),
            constant(2, "two", 1),
            constant(3, "three", 1),
            constant(4, "four", 1),
            constant(10, "ten", 1),
            constant(20, "twenty", 2),
            constant(40, "forty", 2),
            constant(100, "hundred", 2),
            constant(1000, "thousand", 2),
        ],
        operators: vec![],
    }
}

fn create_dictionary_dutch() -> Dictionary {
    Dictionary {
        constants: vec![
            constant(0, "nul", 1),
            constant(1, "een", 1),
            constant(2, "twee", 1),
            constant(3, "drie", 1),
            constant(4, "vier", 1),
            constant(10, "tien", 1),
            constant(20, "twintig", 2),
            constant(40, "veertig", 2),
            constant(100, "honderd", 2),
            constant(1000, "duizend", 2),
        ],
        operators: vec![],
    }
}

fn words(value: i32, representation: &str, number_of_syllables: i32) -> Option<NumberRepresentation> {
    Some(NumberRepresentation {
        value,
        representation: representation.to_owned(),
        number_of_syllables,
    })
}

#[test]
fn test_value_to_word_english() {
    let dictionary = create_dictionary_english();
    let ruleset = LanguageRuleset::English(EnglishRules);
    assert_eq!(value_to_words(3, &dictionary, &ruleset), words(3, "three", 1));
    assert_eq!(value_to_words(43, &dictionary, &ruleset), words(43, "forty three", 3));
    assert_eq!(value_to_words(420, &dictionary, &ruleset), words(420, "four hundred twenty", 5));
    assert_eq!(
        value_to_words(2003, &dictionary, &ruleset),
        words(2003, "two thousand three", 1 + 2 + 1)
    );
}

#[test]
fn test_value_to_word_dutch() {
    let dictionary = create_dictionary_dutch();
    let ruleset = LanguageRuleset::Dutch(DutchRules);
    assert_eq!(value_to_words(3, &dictionary, &ruleset), words(3, "drie", 1));
    assert_eq!(value_to_words(43, &dictionary, &ruleset), words(43, "drieenveertig", 4));
    assert_eq!(value_to_words(420, &dictionary, &ruleset), words(420, "vierhonderdtwintig", 5));
    assert_eq!(
        value_to_words(2003, &dictionary, &ruleset),
        words(2003, "tweeduizend drie", 1 + 2 + 1)
    );
}

#[test]
fn zero_is_the_dictionary_word_in_both_languages() {
    let english = LanguageRuleset::English(EnglishRules);
    let dutch = LanguageRuleset::Dutch(DutchRules);
    assert_eq!(value_to_words(0, &create_dictionary_english(), &english), words(0, "zero", 2));
    assert_eq!(value_to_words(0, &create_dictionary_dutch(), &dutch), words(0, "nul", 1));
}

#[test]
fn zero_without_a_word_has_no_words() {
    let dictionary = Dictionary { constants: vec![constant(1, "one", 1)], operators: vec![] };
    let ruleset = LanguageRuleset::English(EnglishRules);
    assert_eq!(value_to_words(0, &dictionary, &ruleset), None);
}

#[test]
fn negative_values_have_no_words() {
    let ruleset = LanguageRuleset::English(EnglishRules);
    assert_eq!(value_to_words(-5, &create_dictionary_english(), &ruleset), None);
}

#[test]
fn method_and_free_function_agree() {
    let dictionary = create_dictionary_english();
    let ruleset = LanguageRuleset::English(EnglishRules);
    for value in [1, 12, 99, 100, 101, 999, 1234] {
        assert_eq!(ruleset.value_to_words(value, &dictionary), value_to_words(value, &dictionary, &ruleset));
    }
}

#[test]
fn english_hundred_takes_a_multiplier() {
    let dictionary = create_dictionary_english();
    let ruleset = LanguageRuleset::English(EnglishRules);
    assert_eq!(value_to_words(100, &dictionary, &ruleset), words(100, "one hundred", 3));
}

#[test]
fn dutch_hundred_takes_no_multiplier() {
    let dictionary = create_dictionary_dutch();
    let ruleset = LanguageRuleset::Dutch(DutchRules);
    assert_eq!(value_to_words(100, &dictionary, &ruleset), words(100, "honderd", 2));
    assert_eq!(value_to_words(21, &dictionary, &ruleset), words(21, "eenentwintig", 4));
}

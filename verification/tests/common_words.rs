use fastest_numbers::math::expression::{BinaryOperator, UnaryOperator};
use fastest_numbers::syllables::counter::{value_to_words, NumberRepresentation};
use fastest_numbers::syllables::dictionary::{
    Dictionary, DictionaryConstant, DictionaryOperator, Operator,
};

fn constant(value: i32, representation: &str, number_of_syllables: i32) -> DictionaryConstant {
    DictionaryConstant {
        value,
        representation: representation.to_string(),
        number_of_syllables,
    }
}

fn operator(operator: Operator, representation: &str, number_of_syllables: i32) -> DictionaryOperator {
    DictionaryOperator {
        representation: representation.to_string(),
        operator,
        number_of_syllables,
    }
}

fn english() -> Dictionary {
    Dictionary {
        constants: vec![
            constant(0, "zero", 2),
            constant(1, "one", 1),
            constant(2, "two", 1),
            constant(3, "three", 1),
            constant(4, "four", 1),
            constant(5, "five", 1),
            constant(6, "six", 1),
            constant(7, "seven", 2),
            constant(8, "eight", 1),
            constant(9, "nine", 1),
            constant(10, "ten", 1),
            constant(20, "twenty", 2),
            constant(30, "thirty", 2),
            constant(40, "forty", 2),
            constant(50, "fifty", 2),
            constant(60, "sixty", 2),
            constant(70, "seventy", 3),
            constant(80, "eighty", 2),
            constant(90, "ninety", 2),
            constant(100, "hundred", 2),
            constant(1000, "thousand", 2),
        ],
        inverse_constants: vec![],
        operators: vec![
            operator(Operator::Unary(UnaryOperator::Squared), "squared", 1),
            operator(Operator::Unary(UnaryOperator::Cubed), "cubed", 1),
            operator(Operator::Binary(BinaryOperator::Add), "plus", 1),
            operator(Operator::Binary(BinaryOperator::Subtract), "minus", 2),
            operator(Operator::Binary(BinaryOperator::Multiply), "times", 1),
            operator(Operator::Binary(BinaryOperator::Divide), "over", 2),
            operator(Operator::Binary(BinaryOperator::Exponent), "to the", 2),
        ],
    }
}

fn words(value: i32, representation: &str, number_of_syllables: i32) -> Option<NumberRepresentation> {
    Some(NumberRepresentation {
        value,
        representation: representation.to_owned(),
        number_of_syllables,
    })
}

#[test]
fn plain_words_for_small_numbers() {
    let dictionary = english();
    assert_eq!(value_to_words(5, &dictionary), words(5, "five", 1));
    assert_eq!(value_to_words(45, &dictionary), words(45, "forty five", 3));
    assert_eq!(value_to_words(420, &dictionary), words(420, "four hundred twenty", 5));
    assert_eq!(value_to_words(2003, &dictionary), words(2003, "two thousand three", 4));
}

#[test]
fn plain_words_for_zero() {
    assert_eq!(value_to_words(0, &english()), words(0, "zero", 2));
    let no_zero = Dictionary {
        constants: vec![constant(1, "one", 1)],
        inverse_constants: vec![],
        operators: vec![],
    };
    assert_eq!(value_to_words(0, &no_zero), None);
}

#[test]
fn plain_words_for_a_four_digit_number() {
    assert_eq!(
        value_to_words(1234, &english()),
        words(1234, "one thousand two hundred thirty four", 9)
    );
}

#[test]
fn plain_words_for_an_exact_constant() {
    assert_eq!(value_to_words(10, &english()), words(10, "ten", 1));
    assert_eq!(value_to_words(100, &english()), words(100, "one hundred", 3));
    assert_eq!(value_to_words(400, &english()), words(400, "four hundred", 3));
    assert_eq!(value_to_words(3000, &english()), words(3000, "three thousand", 3));
    assert_eq!(value_to_words(40, &english()), words(40, "forty", 2));
}

#[test]
fn dictionary_lookups() {
    let dictionary = english();
    assert_eq!(dictionary.get_from_value(7).map(|c| c.representation), Some("seven".to_string()));
    assert_eq!(dictionary.get_from_value(11), None);
    let times = dictionary
        .get_from_dictionary_operator(Operator::Binary(BinaryOperator::Multiply))
        .unwrap();
    assert_eq!(times.representation, "times");
    assert_eq!(times.number_of_syllables, 1);
    let none = Dictionary { constants: vec![], inverse_constants: vec![], operators: vec![] };
    assert!(none.get_from_dictionary_operator(Operator::Unary(UnaryOperator::Cubed)).is_none());
}

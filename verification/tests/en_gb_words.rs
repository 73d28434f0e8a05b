use fastest_numbers::math::expression::{BinaryOperator as WordBinaryOperator, UnaryOperator as WordUnaryOperator};
use fastest_numbers::math::math::{BinaryOperator, Expression, Operator as ExpressionOperator, UnaryOperator};
use fastest_numbers::math::optimize::optimize;
use fastest_numbers::math::uniform_cost_search::ucs;
use fastest_numbers::syllables::counter::{value_to_words, NumberRepresentation};
use fastest_numbers::syllables::dictionary::{
    Dictionary, DictionaryConstant, DictionaryOperator, Operator,
};

fn constant(value: i32, representation: &str, number_of_syllables: i32) -> DictionaryConstant {
    DictionaryConstant {
        value,
        representation: representation.to_string(),
        number_of_syllables,
    }
}

fn operator(operator: Operator, representation: &str, number_of_syllables: i32) -> DictionaryOperator {
    DictionaryOperator {
        representation: representation.to_string(),
        operator,
        number_of_syllables,
    }
}

/// British English number words and operator words.
fn en_gb() -> Dictionary {
    Dictionary {
        constants: vec![
            constant(0, "zero", 2),
            constant(1, "one", 1),
            constant(2, "two", 1),
            constant(3, "three", 1),
            constant(4, "four", 1),
            constant(5, "five", 1),
            constant(6, "six", 1),
            constant(7, "seven", 2),
            constant(8, "eight", 1),
            constant(9, "nine", 1),
            constant(10, "ten", 1),
            constant(11, "eleven", 3),
            constant(12, "twelve", 1),
            constant(13, "thirteen", 2),
            constant(14, "fourteen", 2),
            constant(15, "fifteen", 2),
            constant(16, "sixteen", 2),
            constant(17, "seventeen", 3),
            constant(18, "eighteen", 2),
            constant(19, "nineteen", 2),
            constant(20, "twenty", 2),
            constant(30, "thirty", 2),
            constant(40, "forty", 2),
            constant(50, "fifty", 2),
            constant(60, "sixty", 2),
            constant(70, "seventy", 3),
            constant(80, "eighty", 2),
            constant(90, "ninety", 2),
            constant(100, "hundred", 2),
            constant(1000, "thousand", 2),
            constant(1000000, "million", 2),
            constant(1000000000, "billion", 2),
        ],
        inverse_constants: vec![],
        operators: vec![
            operator(Operator::Unary(WordUnaryOperator::Squared), "squared", 1),
            operator(Operator::Unary(WordUnaryOperator::Cubed), "cubed", 1),
            operator(Operator::Binary(WordBinaryOperator::Add), "plus", 1),
            operator(Operator::Binary(WordBinaryOperator::Subtract), "minus", 2),
            operator(Operator::Binary(WordBinaryOperator::Multiply), "times", 1),
            operator(Operator::Binary(WordBinaryOperator::Divide), "per", 1),
            operator(Operator::Binary(WordBinaryOperator::Exponent), "to the", 2),
        ],
    }
}

fn check_value_to_word(dictionary: &Dictionary) {
    assert_eq!(
        value_to_words(5, dictionary),
        Some(NumberRepresentation { value: 5, representation: "five".to_owned(), number_of_syllables: 1 })
    );
    assert_eq!(
        value_to_words(45, dictionary),
        Some(NumberRepresentation { value: 45, representation: "forty five".to_owned(), number_of_syllables: 3 })
    );
    assert_eq!(
        value_to_words(420, dictionary),
        Some(NumberRepresentation {
            value: 420,
            representation: "four hundred twenty".to_owned(),
            number_of_syllables: 5
        })
    );
    assert_eq!(
        value_to_words(2147483647, dictionary),
        Some(NumberRepresentation {
            value: 2147483647,
            representation: "two billion one hundred forty seven million four hundred eighty three thousand six hundred forty seven".to_owned(),
            number_of_syllables: 1 + 2 + 1 + 2 + 2 + 2 + 2 + 1 + 2 + 2 + 1 + 2 + 1 + 2 + 2 + 2,
        })
    );
}

#[test]
fn dictionary_test_value_to_word() {
    let dictionary = en_gb();
    check_value_to_word(&dictionary);
}

#[test]
fn tests_test_value_to_word() {
    let dictionary = en_gb();
    check_value_to_word(&dictionary);
}

#[test]
fn test_tree_count_syllables() {
    let dictionary = en_gb();

    let expr1 = Expression::Atom(3);
    let expr2 = Expression::Operation(ExpressionOperator::Unary(UnaryOperator::Squared, Box::new(expr1.clone())));
    let expr3 = Expression::Operation(ExpressionOperator::Binary(
        BinaryOperator::Multiply,
        Box::new(expr2.clone()),
        Box::new(Expression::Atom(5)),
    ));
    let expr4 = Expression::Operation(ExpressionOperator::Binary(
        BinaryOperator::Divide,
        Box::new(expr3.clone()),
        Box::new(Expression::Atom(3)),
    ));
    let expr4_illegal_divide = Expression::Operation(ExpressionOperator::Binary(
        BinaryOperator::Divide,
        Box::new(expr3.clone()),
        Box::new(Expression::Atom(7)),
    ));
    let expr5 = Expression::Operation(ExpressionOperator::Binary(
        BinaryOperator::Exponent,
        Box::new(expr1.clone()),
        Box::new(Expression::Atom(3)),
    ));

    assert_eq!(expr1.number_of_syllables(&dictionary), 1);
    assert_eq!(expr2.number_of_syllables(&dictionary), 2);
    assert_eq!(expr3.number_of_syllables(&dictionary), 4);
    assert_eq!(expr4.number_of_syllables(&dictionary), 6);
    assert_eq!(expr4_illegal_divide.number_of_syllables(&dictionary), 7);
    assert_eq!(expr5.number_of_syllables(&dictionary), 4);
}

#[test]
fn test_unary() {
    let dictionary = en_gb();
    let optimized = optimize(100, &dictionary);

    assert_eq!(
        optimized.inner.get(&3),
        Some(NumberRepresentation { value: 3, number_of_syllables: 1, representation: "three".to_string() })
            .as_ref()
    );
    assert_eq!(
        optimized.inner.get(&81),
        Some(NumberRepresentation {
            value: 81,
            number_of_syllables: 2,
            representation: "nine squared".to_string()
        })
        .as_ref()
    );
    assert_eq!(
        optimized.inner.get(&27),
        Some(NumberRepresentation {
            value: 27,
            number_of_syllables: 2,
            representation: "three cubed".to_string()
        })
        .as_ref()
    );
}

#[test]
fn test_simple() {
    let dictionary = en_gb();
    let result = ucs(
        NumberRepresentation { value: 27, representation: "twenty seven".to_string(), number_of_syllables: 4 },
        2,
        &dictionary,
    );
    assert_eq!(
        result,
        Some(NumberRepresentation { value: 27, representation: "three cubed".to_string(), number_of_syllables: 2 })
    );
}

#[test]
fn test_hard() {
    let dictionary = en_gb();
    let optimized = optimize(100000, &dictionary);

    assert_eq!(optimized.inner.get(&2028).unwrap().number_of_syllables, 5);

    assert_eq!(optimized.inner.get(&1225).unwrap().number_of_syllables, 4);
    assert_eq!(optimized.inner.get(&1234).unwrap().number_of_syllables, 6);
}

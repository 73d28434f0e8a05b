use fastest_numbers::math::expression::{ArithmeticError, BinaryOperator, UnaryOperator};

#[test]
fn squared_and_cubed_apply() {
    assert_eq!(UnaryOperator::Squared.apply(9), Ok(81));
    assert_eq!(UnaryOperator::Squared.apply(-4), Ok(16));
    assert_eq!(UnaryOperator::Cubed.apply(3), Ok(27));
    assert_eq!(UnaryOperator::Cubed.apply(-2), Ok(-8));
}

#[test]
fn squared_overflow_is_reported() {
    assert_eq!(
        UnaryOperator::Squared.apply(50000),
        Err(ArithmeticError::OverflowError(
            "Overflow occurred trying to calculate 50000 squared".to_string()
        ))
    );
}

#[test]
fn cubed_overflow_is_reported() {
    assert_eq!(
        UnaryOperator::Cubed.apply(2000),
        Err(ArithmeticError::OverflowError("Overflow occurred trying to calculate 2000 cubed".to_string()))
    );
}

#[test]
fn inverse_of_a_square() {
    assert_eq!(UnaryOperator::Squared.get_inverse(81), Ok(9));
    assert_eq!(UnaryOperator::Squared.get_inverse(0), Ok(0));
    assert_eq!(
        UnaryOperator::Squared.get_inverse(10),
        Err(ArithmeticError::NonIntegerSolution("3^2 != 10".to_string()))
    );
}

#[test]
fn inverse_of_a_cube() {
    assert_eq!(UnaryOperator::Cubed.get_inverse(27), Ok(3));
    assert_eq!(UnaryOperator::Cubed.get_inverse(1000), Ok(10));
    assert_eq!(
        UnaryOperator::Cubed.get_inverse(10),
        Err(ArithmeticError::NonIntegerSolution("2^3 != 10".to_string()))
    );
    assert_eq!(
        UnaryOperator::Cubed.get_inverse(-8),
        Err(ArithmeticError::NonIntegerSolution("0^3 != -8".to_string()))
    );
}

#[test]
fn get_inverse_undoes_apply_on_examples() {
    for x in [0, 1, 2, 7, 12, 46340] {
        let square = UnaryOperator::Squared.apply(x).unwrap();
        assert_eq!(UnaryOperator::Squared.get_inverse(square), Ok(x));
    }
    for x in [0, 1, 2, 7, 12, 1290] {
        let cube = UnaryOperator::Cubed.apply(x).unwrap();
        assert_eq!(UnaryOperator::Cubed.get_inverse(cube), Ok(x));
    }
}

#[test]
fn binary_apply() {
    assert_eq!(BinaryOperator::Add.apply(40, 2), Ok(42));
    assert_eq!(BinaryOperator::Subtract.apply(2, 40), Ok(-38));
    assert_eq!(BinaryOperator::Multiply.apply(6, 7), Ok(42));
    assert_eq!(BinaryOperator::Divide.apply(84, 2), Ok(42));
    assert_eq!(BinaryOperator::Divide.apply(-84, 2), Ok(-42));
    assert_eq!(BinaryOperator::Exponent.apply(2, 10), Ok(1024));
    assert_eq!(BinaryOperator::Exponent.apply(-3, 3), Ok(-27));
    assert_eq!(BinaryOperator::Exponent.apply(5, 0), Ok(1));
}

#[test]
fn multiply_overflow_is_reported() {
    assert_eq!(
        BinaryOperator::Multiply.apply(100000, 100000),
        Err(ArithmeticError::OverflowError(
            "Overflow occurred trying to calculate 100000*100000".to_string()
        ))
    );
}

#[test]
fn division_errors_are_reported() {
    assert_eq!(
        BinaryOperator::Divide.apply(7, 0),
        Err(ArithmeticError::DivideByZero("Division by zero: 7 / 0".to_string()))
    );
    assert_eq!(
        BinaryOperator::Divide.apply(7, 2),
        Err(ArithmeticError::NonIntegerSolution("Non-integer division: 7 / 2".to_string()))
    );
    assert_eq!(
        BinaryOperator::Divide.apply(-7, 2),
        Err(ArithmeticError::NonIntegerSolution("Non-integer division: -7 / 2".to_string()))
    );
}

#[test]
fn checked_divide_directly() {
    assert_eq!(BinaryOperator::checked_divide(12, -4), Ok(-3));
    assert_eq!(
        BinaryOperator::checked_divide(0, 0),
        Err(ArithmeticError::DivideByZero("Division by zero: 0 / 0".to_string()))
    );
}

#[test]
fn exponent_errors_are_reported() {
    assert_eq!(
        BinaryOperator::Exponent.apply(2, -1),
        Err(ArithmeticError::NegativeExponent("Negative exponent not supported: 2^-1".to_string()))
    );
    assert_eq!(
        BinaryOperator::Exponent.apply(2, 31),
        Err(ArithmeticError::OverflowError("Overflow occurred trying to calculate 2^31".to_string()))
    );
}

#[test]
fn commutative_operators() {
    assert!(BinaryOperator::Add.is_commutative());
    assert!(BinaryOperator::Multiply.is_commutative());
    assert!(!BinaryOperator::Subtract.is_commutative());
    assert!(!BinaryOperator::Divide.is_commutative());
    assert!(!BinaryOperator::Exponent.is_commutative());
    assert_eq!(BinaryOperator::Add.apply(3, 11), BinaryOperator::Add.apply(11, 3));
    assert_eq!(BinaryOperator::Multiply.apply(3, 11), BinaryOperator::Multiply.apply(11, 3));
}

#[test]
fn get_rhs_for_each_operator() {
    assert_eq!(BinaryOperator::Add.get_rhs(10, 3), Ok(7));
    assert_eq!(BinaryOperator::Subtract.get_rhs(4, 10), Ok(6));
    assert_eq!(BinaryOperator::Multiply.get_rhs(12, 3), Ok(4));
    assert_eq!(BinaryOperator::Divide.get_rhs(5, 20), Ok(4));
    assert_eq!(BinaryOperator::Exponent.get_rhs(8, 2), Ok(3));
    assert_eq!(BinaryOperator::Exponent.get_rhs(1, 5), Ok(0));
    assert_eq!(BinaryOperator::Exponent.get_rhs(27, 3), Ok(3));
    assert_eq!(BinaryOperator::Exponent.get_rhs(9, 3), Ok(2));
    assert_eq!(BinaryOperator::Exponent.get_rhs(64, 4), Ok(3));
    assert_eq!(BinaryOperator::Exponent.get_rhs(1000000000, 10), Ok(9));
}

#[test]
fn get_rhs_errors() {
    assert_eq!(
        BinaryOperator::Divide.get_rhs(5, 0),
        Err(ArithmeticError::DivideByZero("Will result in a division by zero: 0/rhs = 5".to_string()))
    );
    assert_eq!(
        BinaryOperator::Multiply.get_rhs(12, 5),
        Err(ArithmeticError::NonIntegerSolution("Non-integer division: 12 / 5".to_string()))
    );
    assert_eq!(
        BinaryOperator::Exponent.get_rhs(0, 2),
        Err(ArithmeticError::NegativeExponent(
            "Can't take logarithm of a negative value, or zero: 2^x=0".to_string()
        ))
    );
    assert_eq!(
        BinaryOperator::Exponent.get_rhs(8, 1),
        Err(ArithmeticError::DivideByZero("Attempted to divide by zero: 1^x = 8".to_string()))
    );
    assert_eq!(
        BinaryOperator::Exponent.get_rhs(10, 3),
        Err(ArithmeticError::NonIntegerSolution("3^2 != 10".to_string()))
    );
}

#[test]
fn get_rhs_solves_apply_on_examples() {
    let cases = [
        (BinaryOperator::Add, 17, 25),
        (BinaryOperator::Subtract, 17, 25),
        (BinaryOperator::Multiply, 6, 7),
        (BinaryOperator::Divide, 42, 7),
        (BinaryOperator::Exponent, 2, 5),
        (BinaryOperator::Exponent, 3, 4),
        (BinaryOperator::Exponent, 7, 11),
    ];
    for (operator, lhs, rhs) in cases {
        let result = operator.apply(lhs, rhs).unwrap();
        assert_eq!(operator.get_rhs(result, lhs), Ok(rhs));
    }
}

#[test]
fn a_found_rhs_always_gives_back_the_result() {
    let operators = [
        BinaryOperator::Add,
        BinaryOperator::Subtract,
        BinaryOperator::Multiply,
        BinaryOperator::Divide,
        BinaryOperator::Exponent,
    ];
    for operator in operators {
        for result in -20..=81 {
            for lhs in -20..=30 {
                if let Ok(rhs) = operator.get_rhs(result, lhs) {
                    assert_eq!(operator.apply(lhs, rhs), Ok(result));
                }
            }
        }
    }
}

#[test]
fn get_rhs_finds_every_exponent() {
    for lhs in 2..=40 {
        for e in 0..=30u32 {
            if let Some(result) = (lhs as i32).checked_pow(e) {
                assert_eq!(BinaryOperator::Exponent.get_rhs(result, lhs), Ok(e as i32));
            }
        }
    }
}

use fastest_numbers::math::math::{BinaryOperator, Expression, Operator, UnaryOperator};

fn make_expressions() -> (Expression, Expression, Expression, Expression, Expression, Expression) {
    let expr1 = Expression::Atom(3);
    let expr2 = Expression::Operation(Operator::Unary(UnaryOperator::Squared, Box::new(expr1.clone())));
    let expr3 = Expression::Operation(Operator::Binary(
        BinaryOperator::Multiply,
        Box::new(expr2.clone()),
        Box::new(Expression::Atom(5)),
    ));
    let expr4 = Expression::Operation(Operator::Binary(
        BinaryOperator::Divide,
        Box::new(expr3.clone()),
        Box::new(Expression::Atom(3)),
    ));
    let expr4_illegal_divide = Expression::Operation(Operator::Binary(
        BinaryOperator::Divide,
        Box::new(expr3.clone()),
        Box::new(Expression::Atom(7)),
    ));
    let expr5 = Expression::Operation(Operator::Binary(
        BinaryOperator::Exponent,
        Box::new(expr1.clone()),
        Box::new(Expression::Atom(3)),
    ));
    (expr1, expr2, expr3, expr4, expr4_illegal_divide, expr5)
}

#[test]
fn math_test_tree_eval_value() {
    let (expr1, expr2, expr3, expr4, expr4_illegal_divide, expr5) = make_expressions();

    assert_eq!(expr1.eval(), Ok(3));
    assert_eq!(expr2.eval(), Ok(9));
    assert_eq!(expr3.eval(), Ok(45));
    assert_eq!(expr4.eval(), Ok(15));
    assert!(expr4_illegal_divide.eval().is_err());
    assert_eq!(expr5.eval(), Ok(27))
}

#[test]
fn math_test_tree_to_string() {
    let (_expr1, _expr2, _expr3, _expr4, _expr4_illegal_divide, _expr5) = make_expressions();
}

#[test]
fn tests_test_tree_eval_value() {
    let expr1 = Expression::Atom(3);
    let expr2 = Expression::Operation(Operator::Unary(UnaryOperator::Squared, Box::new(expr1.clone())));
    let expr3 = Expression::Operation(Operator::Binary(
        BinaryOperator::Multiply,
        Box::new(expr2.clone()),
        Box::new(Expression::Atom(5)),
    ));
    let expr4 = Expression::Operation(Operator::Binary(
        BinaryOperator::Divide,
        Box::new(expr3.clone()),
        Box::new(Expression::Atom(3)),
    ));
    let expr4_illegal_divide = Expression::Operation(Operator::Binary(
        BinaryOperator::Divide,
        Box::new(expr3.clone()),
        Box::new(Expression::Atom(7)),
    ));
    let expr5 = Expression::Operation(Operator::Binary(
        BinaryOperator::Exponent,
        Box::new(expr1.clone()),
        Box::new(Expression::Atom(3)),
    ));

    assert_eq!(expr1.eval(), Ok(3));
    assert_eq!(expr2.eval(), Ok(9));
    assert_eq!(expr3.eval(), Ok(45));
    assert_eq!(expr4.eval(), Ok(15));
    assert!(expr4_illegal_divide.eval().is_err());
    assert_eq!(expr5.eval(), Ok(27))
}

#[test]
fn tests_test_tree_to_string() {
    let expr1 = Expression::Atom(3);
    let expr2 = Expression::Operation(Operator::Unary(UnaryOperator::Squared, Box::new(expr1.clone())));
    let expr3 = Expression::Operation(Operator::Binary(
        BinaryOperator::Multiply,
        Box::new(expr2.clone()),
        Box::new(Expression::Atom(5)),
    ));
    let _expr4 = Expression::Operation(Operator::Binary(
        BinaryOperator::Divide,
        Box::new(expr3.clone()),
        Box::new(Expression::Atom(3)),
    ));
    let _expr4_illegal_divide = Expression::Operation(Operator::Binary(
        BinaryOperator::Divide,
        Box::new(expr3.clone()),
        Box::new(Expression::Atom(7)),
    ));
    let _expr5 = Expression::Operation(Operator::Binary(
        BinaryOperator::Exponent,
        Box::new(expr1.clone()),
        Box::new(Expression::Atom(3)),
    ));
}

#[test]
fn cubed_expression_evaluates() {
    let expr = Expression::Operation(Operator::Unary(UnaryOperator::Cubed, Box::new(Expression::Atom(4))));
    assert_eq!(expr.eval(), Ok(64));
}

#[test]
fn nested_sum_and_difference() {
    let sum = Expression::Operation(Operator::Binary(
        BinaryOperator::Add,
        Box::new(Expression::Atom(40)),
        Box::new(Expression::Atom(2)),
    ));
    let difference = Expression::Operation(Operator::Binary(
        BinaryOperator::Subtract,
        Box::new(sum),
        Box::new(Expression::Atom(50)),
    ));
    assert_eq!(difference.eval(), Ok(-8));
}

#[test]
fn division_by_zero_in_a_tree_is_an_error() {
    let expr = Expression::Operation(Operator::Binary(
        BinaryOperator::Divide,
        Box::new(Expression::Atom(1)),
        Box::new(Expression::Atom(0)),
    ));
    assert!(expr.eval().is_err());
}

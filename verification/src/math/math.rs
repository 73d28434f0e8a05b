use vstd::prelude::*;

use crate::math::digits::{decimal, text_ending_with_two_numbers, text_with_number};
use crate::math::integer::{checked_power, div_i32, fits_i32, power, rem_i32, trunc_div, trunc_rem};
use crate::syllables::counter::{spec_value_to_words, value_to_words, words_defined};
use crate::syllables::dictionary::{find_operator, Dictionary, DictionaryConstant, DictionaryOperator};

pub use crate::math::expression::Number;

verus! {

/// Why evaluating an expression has no `Number` result, with a message naming the operands.
#[derive(Debug, PartialEq)]
pub enum ArithmeticError {
    DivideByZero(String),
    DivisionWithRemainder(String),
    NegativeExponent(String),
    OverflowError(String),
}

/// The mathematical content of an [`ArithmeticError`]: its kind and its message.
pub enum ArithmeticErrorView {
    DivideByZero(Seq<char>),
    DivisionWithRemainder(Seq<char>),
    NegativeExponent(Seq<char>),
    OverflowError(Seq<char>),
}

impl View for ArithmeticError {
    type V = ArithmeticErrorView;

    open spec fn view(&self) -> ArithmeticErrorView {
        match self {
            ArithmeticError::DivideByZero(m) => ArithmeticErrorView::DivideByZero(m@),
            ArithmeticError::DivisionWithRemainder(m) => ArithmeticErrorView::DivisionWithRemainder(m@),
            ArithmeticError::NegativeExponent(m) => ArithmeticErrorView::NegativeExponent(m@),
            ArithmeticError::OverflowError(m) => ArithmeticErrorView::OverflowError(m@),
        }
    }
}

/// The mathematical content of an evaluation result.
pub open spec fn outcome(r: Result<Number, ArithmeticError>) -> Result<int, ArithmeticErrorView> {
    match r {
        Ok(v) => Ok(v as int),
        Err(e) => Err(e@),
    }
}

#[derive(Debug, Clone, Copy, PartialEq, Eq, Structural)]
pub enum UnaryOperator {
    Squared,
    Cubed,
}

#[derive(Debug, Clone, Copy, PartialEq, Eq, Structural)]
pub enum BinaryOperator {
    Add,
    Subtract,
    Multiply,
    Divide,
    Exponent,
}

/// An expression tree: a number, or an operator applied to sub-expressions.
#[derive(Debug)]
pub enum Expression {
    Atom(Number),
    Operation(Operator),
}

#[derive(Debug)]
pub enum Operator {
    Unary(UnaryOperator, Box<Expression>),
    Binary(BinaryOperator, Box<Expression>, Box<Expression>),
}

impl Clone for Expression {
    fn clone(&self) -> (r: Self)
        ensures
            r == *self,
        decreases self,
    {
        match self {
            Expression::Atom(x) => Expression::Atom(*x),
            Expression::Operation(op) => Expression::Operation(op.clone()),
        }
    }
}

impl Clone for Operator {
    fn clone(&self) -> (r: Self)
        ensures
            r == *self,
        decreases self,
    {
        match self {
            Operator::Unary(u, x) => Operator::Unary(*u, Box::new((**x).clone())),
            Operator::Binary(b, x, y) => Operator::Binary(
                *b,
                Box::new((**x).clone()),
                Box::new((**y).clone()),
            ),
        }
    }
}

/// The dictionary's name for the operator at the root of an expression node.
pub open spec fn dictionary_operator_of(op: Operator) -> crate::syllables::Operator {
    match op {
        Operator::Unary(u, _) => crate::syllables::Operator::Unary(
            match u {
                UnaryOperator::Squared => crate::math::expression::UnaryOperator::Squared,
                UnaryOperator::Cubed => crate::math::expression::UnaryOperator::Cubed,
            },
        ),
        Operator::Binary(b, _, _) => crate::syllables::Operator::Binary(
            match b {
                BinaryOperator::Add => crate::math::expression::BinaryOperator::Add,
                BinaryOperator::Subtract => crate::math::expression::BinaryOperator::Subtract,
                BinaryOperator::Multiply => crate::math::expression::BinaryOperator::Multiply,
                BinaryOperator::Divide => crate::math::expression::BinaryOperator::Divide,
                BinaryOperator::Exponent => crate::math::expression::BinaryOperator::Exponent,
            },
        ),
    }
}

impl UnaryOperator {
    /// What `apply` gives for `x`.
    pub open spec fn spec_apply(self, x: int) -> Result<int, ArithmeticErrorView> {
        match self {
            UnaryOperator::Squared => if fits_i32(x * x) {
                Ok(x * x)
            } else {
                Err(ArithmeticErrorView::OverflowError("Overflow occurred trying to calculate "@ + decimal(x) + " squared"@))
            },
            UnaryOperator::Cubed => if fits_i32(x * x * x) {
                Ok(x * x * x)
            } else {
                Err(ArithmeticErrorView::OverflowError("Overflow occurred trying to calculate "@ + decimal(x) + " cubed"@))
            },
        }
    }

    /// `x` squared or cubed; an `OverflowError` when that leaves the `i32` range.
    pub fn apply(&self, x: Number) -> (r: Result<Number, ArithmeticError>)
        ensures
            outcome(r) == self.spec_apply(x as int),
    {
        match self {
            UnaryOperator::Squared => match x.checked_mul(x) {
                Some(v) => Ok(v),
                None => Err(
                    ArithmeticError::OverflowError(
                        text_with_number("Overflow occurred trying to calculate ", x, " squared"),
                    ),
                ),
            },
            UnaryOperator::Cubed => {
                let cube = match x.checked_mul(x) {
                    Some(square) => square.checked_mul(x),
                    None => {
                        proof {
                            assert(!fits_i32(x * x * x)) by (nonlinear_arith)
                                requires
                                    !fits_i32(x * x),
                            ;
                        }
                        None
                    },
                };
                match cube {
                    Some(v) => Ok(v),
                    None => Err(
                        ArithmeticError::OverflowError(
                            text_with_number("Overflow occurred trying to calculate ", x, " cubed"),
                        ),
                    ),
                }
            },
        }
    }
}

impl BinaryOperator {
    /// The inputs on which `apply` does not panic: `+` and `-` are not checked for overflow.
    pub open spec fn apply_defined(self, x: int, y: int) -> bool {
        match self {
            BinaryOperator::Add => fits_i32(x + y),
            BinaryOperator::Subtract => fits_i32(x - y),
            BinaryOperator::Divide => !(x == i32::MIN && y == -1),
            _ => true,
        }
    }

    /// What `apply` gives for `x` and `y`.
    pub open spec fn spec_apply(self, x: int, y: int) -> Result<int, ArithmeticErrorView> {
        match self {
            BinaryOperator::Add => Ok(x + y),
            BinaryOperator::Subtract => Ok(x - y),
            BinaryOperator::Multiply => if fits_i32(x * y) {
                Ok(x * y)
            } else {
                Err(ArithmeticErrorView::OverflowError("Overflow occurred trying to calculate "@ + decimal(x) + "*"@ + decimal(y)))
            },
            BinaryOperator::Divide => if y == 0 {
                Err(ArithmeticErrorView::DivideByZero("Division by zero: "@ + decimal(x) + " / "@ + decimal(y)))
            } else if trunc_rem(x, y) != 0 {
                Err(ArithmeticErrorView::DivisionWithRemainder("Non-integer division: "@ + decimal(x) + " / "@ + decimal(y)))
            } else {
                Ok(trunc_div(x, y))
            },
            BinaryOperator::Exponent => if y < 0 {
                Err(ArithmeticErrorView::NegativeExponent(
                    "Negative exponent not supported: "@ + decimal(x) + "^"@ + decimal(y),
                ))
            } else if fits_i32(power(x, y as nat)) {
                Ok(power(x, y as nat))
            } else {
                Err(ArithmeticErrorView::OverflowError("Overflow occurred trying to calculate "@ + decimal(x) + "^"@ + decimal(y)))
            },
        }
    }

    /// `x op y`. Multiplication and exponentiation report overflow, division reports a zero
    /// divisor or a remainder, and a negative exponent is refused.
    pub fn apply(&self, x: Number, y: Number) -> (r: Result<Number, ArithmeticError>)
        requires
            self.apply_defined(x as int, y as int),
        ensures
            outcome(r) == self.spec_apply(x as int, y as int),
    {
        match self {
            BinaryOperator::Add => Ok(x + y),
            BinaryOperator::Subtract => Ok(x - y),
            BinaryOperator::Multiply => match x.checked_mul(y) {
                Some(v) => Ok(v),
                None => Err(
                    ArithmeticError::OverflowError(
                        text_ending_with_two_numbers("Overflow occurred trying to calculate ", x, "*", y),
                    ),
                ),
            },
            BinaryOperator::Divide => {
                if y == 0 {
                    Err(ArithmeticError::DivideByZero(text_ending_with_two_numbers("Division by zero: ", x, " / ", y)))
                } else if rem_i32(x, y) != 0 {
                    Err(
                        ArithmeticError::DivisionWithRemainder(
                            text_ending_with_two_numbers("Non-integer division: ", x, " / ", y),
                        ),
                    )
                } else {
                    Ok(div_i32(x, y))
                }
            },
            BinaryOperator::Exponent => {
                if y < 0 {
                    Err(
                        ArithmeticError::NegativeExponent(
                            text_ending_with_two_numbers("Negative exponent not supported: ", x, "^", y),
                        ),
                    )
                } else {
                    match checked_power(x, y as u32) {
                        Some(v) => Ok(v),
                        None => Err(
                            ArithmeticError::OverflowError(
                                text_ending_with_two_numbers("Overflow occurred trying to calculate ", x, "^", y),
                            ),
                        ),
                    }
                }
            },
        }
    }
}

impl Expression {
    /// The value of the expression, or the first error met, evaluating operands left to right.
    pub open spec fn spec_eval(self) -> Result<int, ArithmeticErrorView>
        decreases self,
    {
        match self {
            Expression::Atom(x) => Ok(x as int),
            Expression::Operation(op) => match op {
                Operator::Unary(u, x) => match x.spec_eval() {
                    Ok(v) => u.spec_apply(v),
                    Err(e) => Err(e),
                },
                Operator::Binary(b, x, y) => match x.spec_eval() {
                    Err(e) => Err(e),
                    Ok(a) => match y.spec_eval() {
                        Err(e) => Err(e),
                        Ok(c) => b.spec_apply(a, c),
                    },
                },
            },
        }
    }

    /// Evaluation does not panic: no unchecked `+` or `-` overflows, and no `i32::MIN / -1`.
    pub open spec fn eval_defined(self) -> bool
        decreases self,
    {
        match self {
            Expression::Atom(_) => true,
            Expression::Operation(op) => match op {
                Operator::Unary(_, x) => x.eval_defined(),
                Operator::Binary(b, x, y) => x.eval_defined() && match x.spec_eval() {
                    Err(_) => true,
                    Ok(a) => y.eval_defined() && match y.spec_eval() {
                        Err(_) => true,
                        Ok(c) => b.apply_defined(a, c),
                    },
                },
            },
        }
    }

    /// The number of syllables it takes to say the expression: the words of each number and
    /// of each operator; `None` where counting would panic (a number without words, an
    /// operator missing from the dictionary, or an overflowing count).
    pub open spec fn spec_number_of_syllables(
        self,
        cs: Seq<DictionaryConstant>,
        ops: Seq<DictionaryOperator>,
    ) -> Option<int>
        decreases self,
    {
        match self {
            Expression::Atom(x) => if x == 0 || words_defined(cs, x as int) {
                match spec_value_to_words(cs, x as int) {
                    Some(w) => Some(w.2),
                    None => None,
                }
            } else {
                None
            },
            Expression::Operation(op) => match find_operator(ops, dictionary_operator_of(op)) {
                None => None,
                Some(o) => match op {
                    Operator::Unary(_, x) => match x.spec_number_of_syllables(cs, ops) {
                        Some(a) => if fits_i32(o.number_of_syllables + a) {
                            Some(o.number_of_syllables + a)
                        } else {
                            None
                        },
                        None => None,
                    },
                    Operator::Binary(_, x, y) => match x.spec_number_of_syllables(cs, ops) {
                        None => None,
                        Some(a) => if !fits_i32(o.number_of_syllables + a) {
                            None
                        } else {
                            match y.spec_number_of_syllables(cs, ops) {
                                None => None,
                                Some(b) => if fits_i32(o.number_of_syllables + a + b) {
                                    Some(o.number_of_syllables + a + b)
                                } else {
                                    None
                                },
                            }
                        },
                    },
                },
            },
        }
    }

    /// Evaluates the expression tree.
    pub fn eval(&self) -> (r: Result<Number, ArithmeticError>)
        requires
            self.eval_defined(),
        ensures
            outcome(r) == self.spec_eval(),
        decreases self,
    {
        match self {
            Expression::Atom(x) => Ok(*x),
            Expression::Operation(op) => match op {
                Operator::Unary(op, x) => {
                    match x.eval() {
                        Ok(v) => op.apply(v),
                        Err(e) => Err(e),
                    }
                },
                Operator::Binary(op, x, y) => {
                    match x.eval() {
                        Err(e) => Err(e),
                        Ok(a) => match y.eval() {
                            Err(e) => Err(e),
                            Ok(c) => op.apply(a, c),
                        },
                    }
                },
            },
        }
    }

    /// The number of syllables it takes to say the expression with the words of `dictionary`.
    pub fn number_of_syllables(&self, dictionary: &Dictionary) -> (r: Number)
        requires
            self.spec_number_of_syllables(dictionary.constants@, dictionary.operators@).is_some(),
        ensures
            r == self.spec_number_of_syllables(dictionary.constants@, dictionary.operators@)->Some_0,
        decreases self,
    {
        match self {
            Expression::Atom(x) => {
                match value_to_words(*x, dictionary) {
                    Some(item) => item.number_of_syllables,
                    None => {
                        proof {
                            assert(false);
                        }
                        0
                    },
                }
            },
            Expression::Operation(op) => {
                // Sum of LHS + Operator + RHS
                let number_of_syllables_operator = match dictionary.get_from_operator(op) {
                    Some(item) => item.number_of_syllables,
                    None => {
                        proof {
                            assert(false);
                        }
                        0
                    },
                };
                match op {
                    Operator::Unary(_, x) => number_of_syllables_operator + x.number_of_syllables(
                        dictionary,
                    ),
                    Operator::Binary(_, x, y) => number_of_syllables_operator
                        + x.number_of_syllables(dictionary) + y.number_of_syllables(dictionary),
                }
            },
        }
    }
}

/// Exponentiation raises the left operand to the power of the right one: for a
/// non-negative exponent `y`, when `x` multiplied `y` times fits in `i32`, `x ^ y` evaluates
/// to that product (so 2 ^ 5 is 32, not 25), and a negative exponent is refused.
pub proof fn law_exponent_raises_left_to_right(x: i32, y: i32)
    ensures
        y >= 0 && fits_i32(vstd::arithmetic::power::pow(x as int, y as nat))
            ==> BinaryOperator::Exponent.spec_apply(x as int, y as int) == Ok::<
            int,
            ArithmeticErrorView,
        >(vstd::arithmetic::power::pow(x as int, y as nat)) && Expression::Operation(
            Operator::Binary(
                BinaryOperator::Exponent,
                Box::new(Expression::Atom(x)),
                Box::new(Expression::Atom(y)),
            ),
        ).spec_eval() == Ok::<int, ArithmeticErrorView>(
            vstd::arithmetic::power::pow(x as int, y as nat),
        ),
        y < 0 ==> BinaryOperator::Exponent.spec_apply(x as int, y as int) is Err,
{
    if y >= 0 {
        crate::math::integer::lemma_power_is_pow(x as int, y as nat);
        let e = Expression::Operation(
            Operator::Binary(
                BinaryOperator::Exponent,
                Box::new(Expression::Atom(x)),
                Box::new(Expression::Atom(y)),
            ),
        );
        assert(Expression::Atom(x).spec_eval() == Ok::<int, ArithmeticErrorView>(x as int));
        assert(Expression::Atom(y).spec_eval() == Ok::<int, ArithmeticErrorView>(y as int));
        assert(e.spec_eval() == BinaryOperator::Exponent.spec_apply(x as int, y as int));
    }
}

/// The dictionary word looked up for an expression node names an operator that computes what
/// the node computes: wherever both give a value they give the same one, so a difference is
/// said with the word for minus, not for plus. The word found is one for that operator.
pub proof fn law_operator_word_computes_the_node(
    op: Operator,
    x: int,
    y: int,
    ops: Seq<DictionaryOperator>,
)
    ensures
        match (op, dictionary_operator_of(op)) {
            (Operator::Binary(b, _, _), crate::syllables::Operator::Binary(o)) => b.spec_apply(x, y) is Ok
                && o.spec_apply(x, y) is Ok ==> b.spec_apply(x, y)->Ok_0 == o.spec_apply(x, y)->Ok_0,
            (Operator::Unary(u, _), crate::syllables::Operator::Unary(w)) => u.spec_apply(x) is Ok
                && w.spec_apply(x) is Ok ==> u.spec_apply(x)->Ok_0 == w.spec_apply(x)->Ok_0,
            _ => false,
        },
        find_operator(ops, dictionary_operator_of(op)) matches Some(w) ==> w.operator
            == dictionary_operator_of(op),
{
    crate::syllables::dictionary::lemma_find_operator_in(ops, dictionary_operator_of(op));
}

/// Each operator computes its arithmetic on `x` and `y`: the sum, the difference, the product
/// when it fits in `i32`, the exact quotient when `y` divides `x` (and only then a quotient),
/// and the square and cube when they fit.
pub proof fn law_operators_compute(x: int, y: int, k: int)
    ensures
        BinaryOperator::Add.spec_apply(x, y) == Ok::<int, ArithmeticErrorView>(x + y),
        BinaryOperator::Subtract.spec_apply(x, y) == Ok::<int, ArithmeticErrorView>(x - y),
        fits_i32(x * y) ==> BinaryOperator::Multiply.spec_apply(x, y) == Ok::<int, ArithmeticErrorView>(
            x * y,
        ),
        !fits_i32(x * y) ==> BinaryOperator::Multiply.spec_apply(x, y) is Err,
        BinaryOperator::Divide.spec_apply(x, y) matches Ok(q) ==> q * y == x,
        y != 0 && x == y * k ==> BinaryOperator::Divide.spec_apply(x, y) == Ok::<
            int,
            ArithmeticErrorView,
        >(k),
        fits_i32(x * x) ==> UnaryOperator::Squared.spec_apply(x) == Ok::<int, ArithmeticErrorView>(
            x * x,
        ),
        fits_i32(x * x * x) ==> UnaryOperator::Cubed.spec_apply(x) == Ok::<int, ArithmeticErrorView>(
            x * x * x,
        ),
{
    if y != 0 {
        crate::math::integer::lemma_trunc_parts(x, y);
        assert(y * crate::math::integer::trunc_div(x, y) == crate::math::integer::trunc_div(x, y) * y)
            by (nonlinear_arith);
        if x == y * k {
            crate::math::integer::lemma_trunc_exact(x, y, k);
        }
    }
}

/// Saying a binary node takes the syllables of its left operand, of the dictionary's first
/// word for an operator that computes what the node computes, and of its right operand:
/// "ten minus three" takes 1 + 2 + 1.
pub proof fn law_binary_node_syllables(
    b: BinaryOperator,
    l: Expression,
    r: Expression,
    cs: Seq<DictionaryConstant>,
    ops: Seq<DictionaryOperator>,
    x: int,
    y: int,
)
    requires
        l.spec_number_of_syllables(cs, ops) is Some,
        r.spec_number_of_syllables(cs, ops) is Some,
        find_operator(ops, dictionary_operator_of(Operator::Binary(b, Box::new(l), Box::new(r)))) is Some,
    ensures
        ({
            let node = Expression::Operation(Operator::Binary(b, Box::new(l), Box::new(r)));
            let w = find_operator(
                ops,
                dictionary_operator_of(Operator::Binary(b, Box::new(l), Box::new(r))),
            )->Some_0;
            let total = l.spec_number_of_syllables(cs, ops)->Some_0 + w.number_of_syllables
                + r.spec_number_of_syllables(cs, ops)->Some_0;
            &&& fits_i32(l.spec_number_of_syllables(cs, ops)->Some_0 + w.number_of_syllables)
                && fits_i32(total) ==> node.spec_number_of_syllables(cs, ops) == Some(total)
            &&& w.operator matches crate::syllables::Operator::Binary(o) && (b.spec_apply(x, y) is Ok
                && o.spec_apply(x, y) is Ok ==> b.spec_apply(x, y)->Ok_0 == o.spec_apply(x, y)->Ok_0)
        }),
{
    let op = Operator::Binary(b, Box::new(l), Box::new(r));
    law_operator_word_computes_the_node(op, x, y, ops);
}

} // verus!

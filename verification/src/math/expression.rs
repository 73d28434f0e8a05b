use vstd::prelude::*;

use crate::math::digits::{
    decimal, text_ending_with_two_numbers, text_of_two_numbers, text_with_number,
    text_with_three_numbers,
};
use crate::math::integer::{
    checked_power, div_i32, fits_i32, icbrt, icbrt_i32, ilog, ilog2, ilog2_i32, ilog_i32, isqrt,
    isqrt_i32, lemma_ilog_bounds, lemma_ilog_of_power, lemma_power_positive,
    lemma_icbrt_unique, lemma_ilog2_nonneg, lemma_isqrt_unique, lemma_trunc_exact,
    lemma_trunc_parts, power, rem_i32, trunc_div, trunc_rem,
};

verus! {

pub type Number = i32;

/// Why an arithmetic step has no `Number` result, with a message that names the operands.
#[derive(Debug, PartialEq)]
pub enum ArithmeticError {
    DivideByZero(String),
    NegativeExponent(String),
    OverflowError(String),
    NonIntegerSolution(String),
}

/// The mathematical content of an [`ArithmeticError`]: its kind and its message.
pub enum ArithmeticErrorView {
    DivideByZero(Seq<char>),
    NegativeExponent(Seq<char>),
    OverflowError(Seq<char>),
    NonIntegerSolution(Seq<char>),
}

impl View for ArithmeticError {
    type V = ArithmeticErrorView;

    open spec fn view(&self) -> ArithmeticErrorView {
        match self {
            ArithmeticError::DivideByZero(m) => ArithmeticErrorView::DivideByZero(m@),
            ArithmeticError::NegativeExponent(m) => ArithmeticErrorView::NegativeExponent(m@),
            ArithmeticError::OverflowError(m) => ArithmeticErrorView::OverflowError(m@),
            ArithmeticError::NonIntegerSolution(m) => ArithmeticErrorView::NonIntegerSolution(m@),
        }
    }
}

/// The mathematical content of an arithmetic result.
pub open spec fn outcome(r: Result<Number, ArithmeticError>) -> Result<int, ArithmeticErrorView> {
    match r {
        Ok(v) => Ok(v as int),
        Err(e) => Err(e@),
    }
}

#[derive(Debug, Clone, Copy, PartialEq, Eq, Structural)]
pub enum UnaryOperator {
    Squared,
    Cubed,
}

impl UnaryOperator {
    /// What `apply` gives for `x`.
    pub open spec fn spec_apply(self, x: int) -> Result<int, ArithmeticErrorView> {
        match self {
            UnaryOperator::Squared => if fits_i32(x * x) {
                Ok(x * x)
            } else {
                Err(ArithmeticErrorView::OverflowError("Overflow occurred trying to calculate "@ + decimal(x) + " squared"@))
            },
            UnaryOperator::Cubed => if fits_i32(x * x * x) {
                Ok(x * x * x)
            } else {
                Err(ArithmeticErrorView::OverflowError("Overflow occurred trying to calculate "@ + decimal(x) + " cubed"@))
            },
        }
    }

    /// The root that `get_inverse` tries for `x`: the integer square root, or the integer
    /// cube root of a non-negative `x` (0 for a negative one).
    pub open spec fn inverse_candidate(self, x: int) -> int {
        match self {
            UnaryOperator::Squared => isqrt(x),
            UnaryOperator::Cubed => if x >= 0 { icbrt(x) } else { 0 },
        }
    }

    /// What `get_inverse` gives for `x`.
    pub open spec fn spec_get_inverse(self, x: int) -> Result<int, ArithmeticErrorView> {
        let lhs = self.inverse_candidate(x);
        match self {
            UnaryOperator::Squared => if lhs * lhs == x {
                Ok(lhs)
            } else {
                Err(ArithmeticErrorView::NonIntegerSolution(decimal(lhs) + "^2 != "@ + decimal(x)))
            },
            UnaryOperator::Cubed => if lhs * lhs * lhs == x {
                Ok(lhs)
            } else {
                Err(ArithmeticErrorView::NonIntegerSolution(decimal(lhs) + "^3 != "@ + decimal(x)))
            },
        }
    }

    /// `x` squared or cubed; an `OverflowError` when that leaves the `i32` range.
    pub fn apply(&self, x: Number) -> (r: Result<Number, ArithmeticError>)
        ensures
            outcome(r) == self.spec_apply(x as int),
    {
        match self {
            UnaryOperator::Squared => match x.checked_mul(x) {
                Some(v) => Ok(v),
                None => Err(
                    ArithmeticError::OverflowError(
                        text_with_number("Overflow occurred trying to calculate ", x, " squared"),
                    ),
                ),
            },
            UnaryOperator::Cubed => {
                let cube = match x.checked_mul(x) {
                    Some(square) => square.checked_mul(x),
                    None => {
                        proof {
                            assert(!fits_i32(x * x * x)) by (nonlinear_arith)
                                requires
                                    !fits_i32(x * x),
                            ;
                        }
                        None
                    },
                };
                match cube {
                    Some(v) => Ok(v),
                    None => Err(
                        ArithmeticError::OverflowError(
                            text_with_number("Overflow occurred trying to calculate ", x, " cubed"),
                        ),
                    ),
                }
            },
        }
    }

    /// The `lhs` with `lhs` squared (or cubed) equal to `x`, or a `NonIntegerSolution` error
    /// when the root is not a whole number. A square root is taken of non-negative `x` only.
    pub fn get_inverse(&self, x: Number) -> (r: Result<Number, ArithmeticError>)
        requires
            *self == UnaryOperator::Squared ==> x >= 0,
        ensures
            outcome(r) == self.spec_get_inverse(x as int),
    {
        match self {
            UnaryOperator::Squared => {
                let lhs = isqrt_i32(x);
                assert(lhs * lhs <= 46340 * 46340) by (nonlinear_arith)
                    requires
                        0 <= lhs <= 46340,
                ;
                if lhs * lhs != x {
                    Err(ArithmeticError::NonIntegerSolution(text_of_two_numbers(lhs, "^2 != ", x)))
                } else {
                    Ok(lhs)
                }
            },
            UnaryOperator::Cubed => {
                let lhs = if x >= 0 {
                    icbrt_i32(x)
                } else {
                    0
                };
                assert(lhs * lhs <= 1290 * 1290 && lhs * lhs * lhs <= 1290 * 1290 * 1290) by (nonlinear_arith)
                    requires
                        0 <= lhs <= 1290,
                ;
                if lhs * lhs * lhs != x {
                    Err(ArithmeticError::NonIntegerSolution(text_of_two_numbers(lhs, "^3 != ", x)))
                } else {
                    Ok(lhs)
                }
            },
        }
    }
}

#[derive(Debug, Clone, Copy, PartialEq, Eq, Structural)]
pub enum BinaryOperator {
    Add,
    Subtract,
    Multiply,
    Divide,
    Exponent,
}

/// What `BinaryOperator::checked_divide` gives for `x / y`.
pub open spec fn spec_checked_divide(x: int, y: int) -> Result<int, ArithmeticErrorView> {
    if y == 0 {
        Err(ArithmeticErrorView::DivideByZero("Division by zero: "@ + decimal(x) + " / "@ + decimal(y)))
    } else if trunc_rem(x, y) != 0 {
        Err(ArithmeticErrorView::NonIntegerSolution("Non-integer division: "@ + decimal(x) + " / "@ + decimal(y)))
    } else {
        Ok(trunc_div(x, y))
    }
}

impl BinaryOperator {
    /// The inputs on which `apply` does not panic: `+` and `-` are not checked for overflow.
    pub open spec fn apply_defined(self, x: int, y: int) -> bool {
        match self {
            BinaryOperator::Add => fits_i32(x + y),
            BinaryOperator::Subtract => fits_i32(x - y),
            BinaryOperator::Divide => !(x == i32::MIN && y == -1),
            _ => true,
        }
    }

    /// What `apply` gives for `x` and `y`.
    pub open spec fn spec_apply(self, x: int, y: int) -> Result<int, ArithmeticErrorView> {
        match self {
            BinaryOperator::Add => Ok(x + y),
            BinaryOperator::Subtract => Ok(x - y),
            BinaryOperator::Multiply => if fits_i32(x * y) {
                Ok(x * y)
            } else {
                Err(ArithmeticErrorView::OverflowError("Overflow occurred trying to calculate "@ + decimal(x) + "*"@ + decimal(y)))
            },
            BinaryOperator::Divide => spec_checked_divide(x, y),
            BinaryOperator::Exponent => if y < 0 {
                Err(ArithmeticErrorView::NegativeExponent(
                    "Negative exponent not supported: "@ + decimal(x) + "^"@ + decimal(y),
                ))
            } else if fits_i32(power(x, y as nat)) {
                Ok(power(x, y as nat))
            } else {
                Err(ArithmeticErrorView::OverflowError("Overflow occurred trying to calculate "@ + decimal(x) + "^"@ + decimal(y)))
            },
        }
    }

    /// The exponent that `get_rhs` tries for `lhs ^ rhs = result` (with `result >= 1` and
    /// `lhs >= 2`): `rhs = log(result) / log(lhs)`, rounded down, so exact whenever `result`
    /// is a power of `lhs`.
    pub open spec fn exponent_candidate(result: int, lhs: int) -> int {
        ilog(lhs, result)
    }

    /// The inputs on which `get_rhs` does not panic.
    pub open spec fn get_rhs_defined(self, result: int, lhs: int) -> bool {
        match self {
            BinaryOperator::Add => fits_i32(result - lhs),
            BinaryOperator::Subtract => fits_i32(lhs - result),
            BinaryOperator::Multiply => !(result == i32::MIN && lhs == -1),
            BinaryOperator::Divide => !(lhs == i32::MIN && result == -1),
            BinaryOperator::Exponent => true,
        }
    }

    /// What `get_rhs` gives: the `rhs` with `lhs op rhs == result`, or why there is none.
    pub open spec fn spec_get_rhs(self, result: int, lhs: int) -> Result<int, ArithmeticErrorView> {
        match self {
            BinaryOperator::Add => Ok(result - lhs),
            BinaryOperator::Subtract => Ok(lhs - result),
            BinaryOperator::Multiply => spec_checked_divide(result, lhs),
            BinaryOperator::Divide => if lhs == 0 {
                Err(ArithmeticErrorView::DivideByZero(
                    "Will result in a division by zero: "@ + decimal(lhs) + "/rhs = "@ + decimal(result),
                ))
            } else {
                spec_checked_divide(lhs, result)
            },
            BinaryOperator::Exponent => if result <= 0 || lhs <= 0 {
                Err(ArithmeticErrorView::NegativeExponent(
                    "Can't take logarithm of a negative value, or zero: "@ + decimal(lhs) + "^x="@
                        + decimal(result),
                ))
            } else if ilog2(lhs) == 0 {
                Err(ArithmeticErrorView::DivideByZero(
                    "Attempted to divide by zero: "@ + decimal(lhs) + "^x = "@ + decimal(result),
                ))
            } else {
                let rhs = Self::exponent_candidate(result, lhs);
                if power(lhs, rhs as nat) == result {
                    Ok(rhs)
                } else {
                    Err(ArithmeticErrorView::NonIntegerSolution(
                        decimal(lhs) + "^"@ + decimal(rhs) + " != "@ + decimal(result),
                    ))
                }
            },
        }
    }

    /// `x op y`. Multiplication and exponentiation report overflow, division reports a zero
    /// divisor or a remainder, and a negative exponent is refused.
    pub fn apply(&self, x: Number, y: Number) -> (r: Result<Number, ArithmeticError>)
        requires
            self.apply_defined(x as int, y as int),
        ensures
            outcome(r) == self.spec_apply(x as int, y as int),
    {
        match self {
            BinaryOperator::Add => Ok(x + y),
            BinaryOperator::Subtract => Ok(x - y),
            BinaryOperator::Multiply => match x.checked_mul(y) {
                Some(v) => Ok(v),
                None => Err(
                    ArithmeticError::OverflowError(
                        text_ending_with_two_numbers("Overflow occurred trying to calculate ", x, "*", y),
                    ),
                ),
            },
            BinaryOperator::Divide => Self::checked_divide(x, y),
            BinaryOperator::Exponent => {
                if y < 0 {
                    Err(
                        ArithmeticError::NegativeExponent(
                            text_ending_with_two_numbers("Negative exponent not supported: ", x, "^", y),
                        ),
                    )
                } else {
                    match checked_power(x, y as u32) {
                        Some(v) => Ok(v),
                        None => Err(
                            ArithmeticError::OverflowError(
                                text_ending_with_two_numbers(
                                    "Overflow occurred trying to calculate ",
                                    x,
                                    "^",
                                    y),
                            ),
                        ),
                    }
                }
            },
        }
    }

    /// Whether `x op y == y op x` for all operands.
    pub fn is_commutative(&self) -> (r: bool)
        ensures
            r == (*self == BinaryOperator::Add || *self == BinaryOperator::Multiply),
    {
        match self {
            BinaryOperator::Add => true,
            BinaryOperator::Subtract => false,
            BinaryOperator::Multiply => true,
            BinaryOperator::Divide => false,
            BinaryOperator::Exponent => false,
        }
    }

    /// Solves `lhs op rhs == result` for `rhs`.
    pub fn get_rhs(&self, result: Number, lhs: Number) -> (r: Result<Number, ArithmeticError>)
        requires
            self.get_rhs_defined(result as int, lhs as int),
        ensures
            outcome(r) == self.spec_get_rhs(result as int, lhs as int),
    {
        match self {
            BinaryOperator::Add => Ok(result - lhs),
            BinaryOperator::Subtract => Ok(lhs - result),
            BinaryOperator::Multiply => Self::checked_divide(result, lhs),
            BinaryOperator::Divide => {
                if lhs == 0 {
                    Err(
                        ArithmeticError::DivideByZero(
                            text_ending_with_two_numbers(
                                "Will result in a division by zero: ",
                                lhs,
                                "/rhs = ",
                                result),
                        ),
                    )
                } else {
                    Self::checked_divide(lhs, result)
                }
            },
            BinaryOperator::Exponent => {
                if result <= 0 || lhs <= 0 {
                    return Err(
                        ArithmeticError::NegativeExponent(
                            text_ending_with_two_numbers(
                                "Can't take logarithm of a negative value, or zero: ",
                                lhs,
                                "^x=",
                                result),
                        ),
                    );
                }
                let log_lhs = ilog2_i32(lhs);
                if log_lhs == 0 {
                    return Err(
                        ArithmeticError::DivideByZero(
                            text_ending_with_two_numbers(
                                "Attempted to divide by zero: ",
                                lhs,
                                "^x = ",
                                result),
                        ),
                    );
                }
                // rhs * log(lhs) = log(result)
                proof {
                    lemma_ilog_bounds(lhs as int, result as int);
                }
                let rhs = ilog_i32(lhs, result) as Number;
                match checked_power(lhs, rhs as u32) {
                    Some(p) => {
                        if p == result {
                            Ok(rhs)
                        } else {
                            Err(ArithmeticError::NonIntegerSolution(text_with_three_numbers(lhs, "^", rhs, " != ", result)))
                        }
                    },
                    None => {
                        proof {
                            assert(false);
                        }
                        Err(ArithmeticError::NonIntegerSolution(text_with_three_numbers(lhs, "^", rhs, " != ", result)))
                    },
                }
            },
        }
    }

    /// `x / y` when it is a whole number; otherwise a `DivideByZero` or a
    /// `NonIntegerSolution` error.
    pub fn checked_divide(x: Number, y: Number) -> (r: Result<Number, ArithmeticError>)
        requires
            !(x == i32::MIN && y == -1),
        ensures
            outcome(r) == spec_checked_divide(x as int, y as int),
    {
        if y == 0 {
            Err(ArithmeticError::DivideByZero(text_ending_with_two_numbers("Division by zero: ", x, " / ", y)))
        } else if rem_i32(x, y) != 0 {
            Err(ArithmeticError::NonIntegerSolution(text_ending_with_two_numbers("Non-integer division: ", x, " / ", y)))
        } else {
            Ok(div_i32(x, y))
        }
    }
}

/// Squaring (cubing) the root that `get_inverse` finds gives back the number it started from.
pub proof fn law_get_inverse_undoes_apply(op: UnaryOperator, x: int)
    requires
        fits_i32(x),
        op == UnaryOperator::Squared ==> x >= 0,
    ensures
        op.spec_get_inverse(x) matches Ok(r) ==> op.spec_apply(r) == Ok::<int, ArithmeticErrorView>(x),
{
}

/// `get_inverse` finds again every non-negative number that was squared (cubed) without overflow.
pub proof fn law_get_inverse_after_apply(op: UnaryOperator, r: int)
    requires
        0 <= r,
        op.spec_apply(r) is Ok,
    ensures
        op.spec_get_inverse(op.spec_apply(r)->Ok_0) == Ok::<int, ArithmeticErrorView>(r),
{
    match op {
        UnaryOperator::Squared => {
            let x = r * r;
            assert(x < (r + 1) * (r + 1)) by (nonlinear_arith)
                requires
                    r >= 0,
                    x == r * r,
            ;
            assert(x >= 0) by (nonlinear_arith)
                requires
                    x == r * r,
            ;
            lemma_isqrt_unique(x, r);
        },
        UnaryOperator::Cubed => {
            let x = r * r * r;
            assert(x < (r + 1) * (r + 1) * (r + 1)) by (nonlinear_arith)
                requires
                    r >= 0,
                    x == r * r * r,
            ;
            assert(x >= 0) by (nonlinear_arith)
                requires
                    r >= 0,
                    x == r * r * r,
            ;
            lemma_icbrt_unique(x, r);
        },
    }
}

/// A whole-number quotient from `checked_divide` multiplies back to the dividend.
pub proof fn law_checked_divide_exact(x: int, y: int)
    ensures
        spec_checked_divide(x, y) matches Ok(q) ==> q * y == x,
{
    if y != 0 {
        lemma_trunc_parts(x, y);
        assert(y * trunc_div(x, y) == trunc_div(x, y) * y) by (nonlinear_arith);
    }
}

/// The `rhs` that `get_rhs` finds for `lhs` and `result` gives back `result` under `apply`.
pub proof fn law_get_rhs_solves_apply(op: BinaryOperator, result: int, lhs: int)
    requires
        fits_i32(result),
        fits_i32(lhs),
        op.get_rhs_defined(result, lhs),
    ensures
        op.spec_get_rhs(result, lhs) matches Ok(rhs) ==> op.apply_defined(lhs, rhs) && op.spec_apply(
            lhs,
            rhs,
        ) == Ok::<int, ArithmeticErrorView>(result),
{
    match op {
        BinaryOperator::Multiply => {
            if spec_checked_divide(result, lhs) is Ok {
                lemma_trunc_parts(result, lhs);
            }
        },
        BinaryOperator::Divide => {
            if lhs != 0 && spec_checked_divide(lhs, result) is Ok {
                let q = trunc_div(lhs, result);
                lemma_trunc_parts(lhs, result);
                assert(lhs == q * result) by (nonlinear_arith)
                    requires
                        lhs == result * q + 0,
                ;
                assert(q != 0) by (nonlinear_arith)
                    requires
                        lhs == q * result,
                        lhs != 0,
                ;
                lemma_trunc_exact(lhs, q, result);
                if q == -1 {
                    assert(result == -lhs);
                }
            }
        },
        BinaryOperator::Exponent => {
            if result > 0 && lhs > 0 && ilog2(lhs) != 0 {
                lemma_ilog_bounds(lhs, result);
            }
        },
        _ => {},
    }
}

/// For `^`, `get_rhs` finds the exponent of every power of a base of at least 2:
/// `rhs = log(result) / log(lhs)` exactly.
pub proof fn law_get_rhs_finds_exponent(lhs: int, e: nat)
    requires
        lhs >= 2,
        fits_i32(power(lhs, e)),
    ensures
        BinaryOperator::Exponent.spec_get_rhs(power(lhs, e), lhs) == Ok::<int, ArithmeticErrorView>(
            e as int,
        ),
{
    lemma_ilog_of_power(lhs, e);
    lemma_ilog2_nonneg(lhs / 2);
    lemma_power_positive(lhs, e);
}

/// For the operators that `is_commutative` reports, swapping the operands changes nothing
/// about whether `apply` succeeds or what it gives.
pub proof fn law_commutative_operators(op: BinaryOperator, x: int, y: int)
    requires
        op == BinaryOperator::Add || op == BinaryOperator::Multiply,
    ensures
        op.apply_defined(x, y) == op.apply_defined(y, x),
        (op.spec_apply(x, y) is Ok) == (op.spec_apply(y, x) is Ok),
        op.spec_apply(x, y) is Ok ==> op.spec_apply(x, y) == op.spec_apply(y, x),
{
    assert(x * y == y * x) by (nonlinear_arith);
}

/// Exponentiation raises the left operand to the power of the right one: for a
/// non-negative exponent `y`, when `x` multiplied `y` times fits in `i32`, `x ^ y` is that
/// product, and a negative exponent is refused.
pub proof fn law_exponent_is_power(x: int, y: int)
    ensures
        y >= 0 && fits_i32(vstd::arithmetic::power::pow(x, y as nat))
            ==> BinaryOperator::Exponent.spec_apply(x, y) == Ok::<int, ArithmeticErrorView>(
            vstd::arithmetic::power::pow(x, y as nat),
        ),
        y < 0 ==> BinaryOperator::Exponent.spec_apply(x, y) is Err,
{
    if y >= 0 {
        crate::math::integer::lemma_power_is_pow(x, y as nat);
    }
}

/// Each operator computes its arithmetic on `x` and `y`: the sum, the difference, the product
/// when it fits in `i32`, the exact quotient when `y` divides `x` (and only then a quotient),
/// and the square and cube when they fit.
pub proof fn law_operators_compute(x: int, y: int, k: int)
    ensures
        BinaryOperator::Add.spec_apply(x, y) == Ok::<int, ArithmeticErrorView>(x + y),
        BinaryOperator::Subtract.spec_apply(x, y) == Ok::<int, ArithmeticErrorView>(x - y),
        fits_i32(x * y) ==> BinaryOperator::Multiply.spec_apply(x, y) == Ok::<int, ArithmeticErrorView>(
            x * y,
        ),
        !fits_i32(x * y) ==> BinaryOperator::Multiply.spec_apply(x, y) is Err,
        BinaryOperator::Divide.spec_apply(x, y) matches Ok(q) ==> q * y == x,
        y != 0 && x == y * k ==> BinaryOperator::Divide.spec_apply(x, y) == Ok::<
            int,
            ArithmeticErrorView,
        >(k),
        fits_i32(x * x) ==> UnaryOperator::Squared.spec_apply(x) == Ok::<int, ArithmeticErrorView>(
            x * x,
        ),
        fits_i32(x * x * x) ==> UnaryOperator::Cubed.spec_apply(x) == Ok::<int, ArithmeticErrorView>(
            x * x * x,
        ),
{
    if y != 0 {
        crate::math::integer::lemma_trunc_parts(x, y);
        assert(y * crate::math::integer::trunc_div(x, y) == crate::math::integer::trunc_div(x, y) * y)
            by (nonlinear_arith);
        if x == y * k {
            crate::math::integer::lemma_trunc_exact(x, y, k);
        }
    }
}

} // verus!

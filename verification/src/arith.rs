//! Rounding arithmetic on scalars, as a function that the caller supplies.
//!
//! Nothing is assumed of the arithmetic but that one operation on the same numbers always has
//! the same result. What is proved of the signal path holds for every such function.
use vstd::prelude::*;

use crate::scalar::Scalar;

verus! {

/// One operation of single-precision arithmetic.
#[derive(Debug, Clone, Copy)]
pub enum Op {
    /// The sum of two numbers.
    Add(Scalar, Scalar),
    /// The first number less the second.
    Sub(Scalar, Scalar),
    /// The product of two numbers.
    Mul(Scalar, Scalar),
    /// The first number divided by the second.
    Div(Scalar, Scalar),
    /// The square root.
    Sqrt(Scalar),
    /// The power of e.
    Exp(Scalar),
    /// The logarithm to base 2.
    Log2(Scalar),
    /// The first number to the power of the second.
    Pow(Scalar, Scalar),
    /// The sine of an angle in radians.
    Sin(Scalar),
    /// The cosine of an angle in radians.
    Cos(Scalar),
    /// The angle in radians whose tangent is the first number divided by the second.
    Atan2(Scalar, Scalar),
    /// The nearest whole number, away from zero where two are equally near.
    Round(Scalar),
    /// The number nearest to an integer.
    FromInt(i128),
}

/// The results of arithmetic, one for each operation.
pub type Arith = spec_fn(Op) -> Scalar;

/// `f` is total, and one operation has one result.
pub open spec fn is_arithmetic<F: Fn(Op) -> Scalar>(f: F) -> bool {
    &&& forall|op: Op| #[trigger] call_requires(f, (op,))
    &&& forall|op: Op, a: Scalar, b: Scalar| #[trigger]
        call_ensures(f, (op,), a) && #[trigger] call_ensures(f, (op,), b) ==> a == b
}

/// The results that `f` gives.
pub open spec fn results<F: Fn(Op) -> Scalar>(f: F) -> Arith {
    |op: Op| choose|r: Scalar| call_ensures(f, (op,), r)
}

/// The result of one operation, which is also what `f` promises of it.
pub fn apply<F: Fn(Op) -> Scalar>(f: &F, op: Op) -> (r: Scalar)
    requires
        is_arithmetic(*f),
    ensures
        r == results(*f)(op),
        call_ensures(*f, (op,), r),
{
    f(op)
}

/// `b` is `a` with the other sign; the sign of zero, and of what is not a number, aside.
pub open spec fn flipped(a: Scalar, b: Scalar) -> bool {
    ||| b == a.negated()
    ||| a.magnitude() == 0 && b.magnitude() == 0
    ||| a.nan() && b.nan()
}

/// Arithmetic that treats both signs alike, as the one of IEEE 754 does where there is one
/// pattern for what is not a number: with the signs of its operands the sign of a result
/// changes, and nothing else of it.
pub open spec fn is_sign_symmetric(ar: Arith) -> bool {
    &&& forall|a: Scalar, b: Scalar, c: Scalar, d: Scalar|
        flipped(a, b) && flipped(c, d) ==> flipped(
            #[trigger] ar(Op::Add(a, c)),
            #[trigger] ar(Op::Add(b, d)),
        )
    &&& forall|a: Scalar, b: Scalar, c: Scalar, d: Scalar|
        flipped(a, b) && flipped(c, d) ==> flipped(
            #[trigger] ar(Op::Sub(a, c)),
            #[trigger] ar(Op::Sub(b, d)),
        )
    &&& forall|a: Scalar, b: Scalar, w: Scalar|
        flipped(a, b) ==> flipped(#[trigger] ar(Op::Mul(a, w)), #[trigger] ar(Op::Mul(b, w)))
    &&& forall|a: Scalar, b: Scalar, n: Scalar|
        flipped(a, b) ==> flipped(#[trigger] ar(Op::Div(a, n)), #[trigger] ar(Op::Div(b, n)))
    &&& forall|a: Scalar, b: Scalar|
        flipped(a, b) ==> #[trigger] ar(Op::Mul(a, a)) == #[trigger] ar(Op::Mul(b, b))
}

} // verus!

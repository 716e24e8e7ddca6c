//! The scalar arithmetic that the library computes with.
//!
//! Every numeric routine is generic over [`Scalar`]. The trait promises nothing
//! about its operations: contracts speak of them through the relations below,
//! each of which says that a value is one the named operation may return for the
//! given operands. A contract built from them fixes which operations are applied
//! to which operands, and holds for every implementation, rounding included.

use vstd::prelude::*;

verus! {

/// Binary operator vocabulary of the op graphs.
#[derive(Debug, Clone, Copy, PartialEq, Eq, Hash, Structural)]
pub enum BinOp {
    Add,
    Sub,
    Mul,
    Div,
    Pow,
    Mod,
    Min,
    Max,
    Atan2,
    Hypot,
}

/// Unary operator vocabulary of the op graphs.
#[derive(Debug, Clone, Copy, PartialEq, Eq, Hash, Structural)]
pub enum UnaryOp {
    Neg,
    Sin,
    Cos,
    Tan,
    Atan,
    Sinh,
    Cosh,
    Tanh,
    Exp,
    Log,
    Log10,
    Abs,
    Sqrt,
    Sign,
    Floor,
    Asin,
    Acos,
    Asinh,
    Acosh,
    Atanh,
    Ceil,
    Round,
    Trunc,
    Log2,
    Log1p,
    Expm1,
    Cbrt,
    Erf,
    Erfc,
    Lgamma,
    Tgamma,
    Digamma,
    RandUniform,
}

/// Comparison vocabulary; a comparison yields one for true and zero for false.
#[derive(Debug, Clone, Copy, PartialEq, Eq, Hash, Structural)]
pub enum CmpOp {
    Gt,
    Ge,
    Lt,
    Le,
    Eq,
    Ne,
}

/// Variadic reductions, each with an identity and a combining step.
#[derive(Debug, Clone, Copy, PartialEq, Eq, Hash, Structural)]
pub enum ReduceOp {
    Sum,
    Product,
    Min,
    Max,
}

/// Numbers that the library computes with.
pub trait Scalar: Copy {
    fn zero() -> Self;

    fn one() -> Self;

    /// The value with the given bit pattern.
    fn from_bits(bits: u64) -> Self;

    /// The quotient of two whole numbers.
    fn ratio(num: u64, den: u64) -> Self;

    /// The value nearest to an element count.
    fn from_count(n: usize) -> Self;

    fn plus(self, rhs: Self) -> Self;

    fn minus(self, rhs: Self) -> Self;

    fn times(self, rhs: Self) -> Self;

    fn over(self, rhs: Self) -> Self;

    fn negated(self) -> Self;

    /// `self * b + c`, rounded once.
    fn fused(self, b: Self, c: Self) -> Self;

    fn magnitude(self) -> Self;

    fn root(self) -> Self;

    fn larger(self, rhs: Self) -> Self;

    fn smaller(self, rhs: Self) -> Self;

    /// `self < rhs`.
    fn below(self, rhs: Self) -> bool;

    /// `self <= rhs`.
    fn at_most(self, rhs: Self) -> bool;

    /// `self == rhs`.
    fn same(self, rhs: Self) -> bool;

    fn finite(self) -> bool;

    fn binary(op: BinOp, a: Self, b: Self) -> Self;

    fn unary(op: UnaryOp, a: Self) -> Self;

    fn relation(op: CmpOp, a: Self, b: Self) -> Self;

    fn identity(op: ReduceOp) -> Self;

    fn combine(op: ReduceOp, acc: Self, v: Self) -> Self;
}

/// `r` may be the zero of `F`.
pub open spec fn zeros<F: Scalar>(r: F) -> bool {
    call_ensures(F::zero, (), r)
}

/// `r` may be the unit of `F`.
pub open spec fn ones<F: Scalar>(r: F) -> bool {
    call_ensures(F::one, (), r)
}

/// `r` may be the value with bit pattern `bits`.
pub open spec fn decodes<F: Scalar>(bits: u64, r: F) -> bool {
    call_ensures(F::from_bits, (bits,), r)
}

/// `r` may be the quotient `num / den`.
pub open spec fn ratios<F: Scalar>(num: u64, den: u64, r: F) -> bool {
    call_ensures(F::ratio, (num, den), r)
}

/// `r` may be the scalar for the count `n`.
pub open spec fn counts<F: Scalar>(n: usize, r: F) -> bool {
    call_ensures(F::from_count, (n,), r)
}

/// `r` may be `a + b`.
pub open spec fn adds<F: Scalar>(a: F, b: F, r: F) -> bool {
    call_ensures(F::plus, (a, b), r)
}

/// `r` may be `a - b`.
pub open spec fn subs<F: Scalar>(a: F, b: F, r: F) -> bool {
    call_ensures(F::minus, (a, b), r)
}

/// `r` may be `a * b`.
pub open spec fn muls<F: Scalar>(a: F, b: F, r: F) -> bool {
    call_ensures(F::times, (a, b), r)
}

/// `r` may be `a / b`.
pub open spec fn divs<F: Scalar>(a: F, b: F, r: F) -> bool {
    call_ensures(F::over, (a, b), r)
}

/// `r` may be `-a`.
pub open spec fn negs<F: Scalar>(a: F, r: F) -> bool {
    call_ensures(F::negated, (a,), r)
}

/// `r` may be the fused `a * b + c`.
pub open spec fn fuses<F: Scalar>(a: F, b: F, c: F, r: F) -> bool {
    call_ensures(F::fused, (a, b, c), r)
}

/// `r` may be `|a|`.
pub open spec fn mags<F: Scalar>(a: F, r: F) -> bool {
    call_ensures(F::magnitude, (a,), r)
}

/// `r` may be the square root of `a`.
pub open spec fn roots<F: Scalar>(a: F, r: F) -> bool {
    call_ensures(F::root, (a,), r)
}

/// `r` may be the larger of `a` and `b`.
pub open spec fn maxes<F: Scalar>(a: F, b: F, r: F) -> bool {
    call_ensures(F::larger, (a, b), r)
}

/// `r` may be the smaller of `a` and `b`.
pub open spec fn mins<F: Scalar>(a: F, b: F, r: F) -> bool {
    call_ensures(F::smaller, (a, b), r)
}

/// The test `a < b` may come out as `r`.
pub open spec fn lts<F: Scalar>(a: F, b: F, r: bool) -> bool {
    call_ensures(F::below, (a, b), r)
}

/// The test `a <= b` may come out as `r`.
pub open spec fn les<F: Scalar>(a: F, b: F, r: bool) -> bool {
    call_ensures(F::at_most, (a, b), r)
}

/// The test `a == b` may come out as `r`.
pub open spec fn eqs<F: Scalar>(a: F, b: F, r: bool) -> bool {
    call_ensures(F::same, (a, b), r)
}

/// The finiteness test of `a` may come out as `r`.
pub open spec fn finites<F: Scalar>(a: F, r: bool) -> bool {
    call_ensures(F::finite, (a,), r)
}

/// The test `a != 0` may come out as `r`.
pub open spec fn nonzeros<F: Scalar>(a: F, r: bool) -> bool {
    exists|z: F| #[trigger] zeros(z) && eqs(a, z, !r)
}

/// Whether `a` differs from zero.
pub fn nonzero<F: Scalar>(a: F) -> (r: bool)
    ensures
        nonzeros(a, r),
{
    let z: F = F::zero();
    assert(zeros(z));
    !a.same(z)
}

} // verus!

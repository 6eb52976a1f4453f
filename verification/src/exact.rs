//! What operations give where they do not round, in terms of the numbers themselves.
//!
//! A law that says what becomes of a frequency, a period or a level speaks of numbers, not of
//! operations. It holds exactly where the operations that lead to its results are exact; the
//! predicates here say of one result that it is.
use vstd::arithmetic::div_mod::*;
use vstd::arithmetic::power2::*;
use vstd::prelude::*;

use crate::scalar::{
    lemma_units_not_negative, magnitude_units, num, Scalar, HALF, ONE, TWO, ZERO,
};

verus! {

/// The number 1 in the units that numbers are counted in.
pub open spec fn unit() -> int {
    pow2(149) as int
}

/// `r` is the sum of `a` and `b`.
pub open spec fn is_sum(a: Scalar, b: Scalar, r: Scalar) -> bool {
    r.finite() && r.units() == a.units() + b.units()
}

/// `r` is `a` less `b`.
pub open spec fn is_difference(a: Scalar, b: Scalar, r: Scalar) -> bool {
    r.finite() && r.units() == a.units() - b.units()
}

/// `r` is the product of `a` and `b`.
pub open spec fn is_product(a: Scalar, b: Scalar, r: Scalar) -> bool {
    r.finite() && r.units() * unit() == a.units() * b.units()
}

/// `r` is `a` divided by `b`.
pub open spec fn is_quotient(a: Scalar, b: Scalar, r: Scalar) -> bool {
    r.finite() && b.units() != 0 && r.units() * b.units() == a.units() * unit()
}

/// `r` is the whole number `n`.
pub open spec fn is_whole(n: int, r: Scalar) -> bool {
    r.finite() && r.units() == n * unit()
}

/// `r` is a whole number that is nearest to `x`.
pub open spec fn is_rounded(x: Scalar, r: Scalar) -> bool {
    &&& r.finite()
    &&& r.units() % unit() == 0
    &&& -unit() <= 2 * (r.units() - x.units()) <= unit()
}

/// How far apart two integers are.
pub open spec fn gap(a: int, b: int) -> int {
    if a < b {
        b - a
    } else {
        a - b
    }
}

/// A pattern with the exponent `e` and the significand `m` stands for `v`, where `m` is `v`
/// shifted by `k` bits.
proof fn lemma_pattern(x: Scalar, e: int, m: int, k: nat, v: int)
    requires
        !x.sign_bit(),
        x.magnitude() / 0x80_0000 == e,
        x.magnitude() % 0x80_0000 + 0x80_0000 == m,
        1 <= e,
        e - 1 + k == 149,
        v * pow2(k) == m,
    ensures
        x.units() == v * unit(),
{
    lemma_pow2_adds((e - 1) as nat, k);
    let (a, b) = (pow2((e - 1) as nat) as int, pow2(k) as int);
    assert((v * b) * a == v * (a * b)) by (nonlinear_arith);
}

/// Zero, one, two and a half are what they are called.
pub proof fn small_numbers_are_what_they_are_called()
    ensures
        num(ZERO).units() == 0,
        num(ONE).units() == unit(),
        num(TWO).units() == 2 * unit(),
        2 * num(HALF).units() == unit(),
        unit() > 0,
{
    lemma_pow2_pos(149);
    lemma2_to64();
    lemma_pattern(num(ONE), 127, 0x80_0000, 23, 1);
    lemma_pattern(num(TWO), 128, 0x80_0000, 22, 2);
    lemma_pow2_adds(125, 24);
    assert(num(HALF).units() == 0x80_0000 * pow2(125));
}

/// The patterns of 20, 24, 40, 50, 80, 100 and 1200 are theirs.
pub proof fn whole_patterns_are_whole()
    ensures
        num(0x41a0_0000).units() == 20 * unit(),
        num(0x41c0_0000).units() == 24 * unit(),
        num(0x4220_0000).units() == 40 * unit(),
        num(0x4248_0000).units() == 50 * unit(),
        num(0x42a0_0000).units() == 80 * unit(),
        num(0x42c8_0000).units() == 100 * unit(),
        num(0x4496_0000).units() == 1200 * unit(),
{
    lemma2_to64();
    lemma_pattern(num(0x41a0_0000), 131, 0xa0_0000, 19, 20);
    lemma_pattern(num(0x41c0_0000), 131, 0xc0_0000, 19, 24);
    lemma_pattern(num(0x4220_0000), 132, 0xa0_0000, 18, 40);
    lemma_pattern(num(0x4248_0000), 132, 0xc8_0000, 18, 50);
    lemma_pattern(num(0x42a0_0000), 133, 0xa0_0000, 17, 80);
    lemma_pattern(num(0x42c8_0000), 133, 0xc8_0000, 17, 100);
    lemma_pattern(num(0x4496_0000), 137, 0x96_0000, 13, 1200);
}

/// The patterns of 12, 69 and 440 are theirs.
pub proof fn concert_numbers_are_whole()
    ensures
        num(ZERO).units() == 0,
        num(0x4140_0000).units() == 12 * unit(),
        num(0x428a_0000).units() == 69 * unit(),
        num(0x43dc_0000).units() == 440 * unit(),
        unit() > 0,
{
    lemma_pow2_pos(149);
    lemma2_to64();
    lemma_pattern(num(0x4140_0000), 130, 0xc0_0000, 20, 12);
    lemma_pattern(num(0x428a_0000), 133, 0x8a_0000, 17, 69);
    lemma_pattern(num(0x43dc_0000), 135, 0xdc_0000, 15, 440);
}

/// What a number is as a count, where it is whole, is that number.
pub proof fn whole_numbers_count_as_themselves(n: int, r: Scalar)
    requires
        is_whole(n, r),
        0 <= n <= usize::MAX,
    ensures
        r.count() == n,
{
    lemma_pow2_pos(149);
    if r.sign_bit() {
        lemma_units_not_negative(r);
        assert(n == 0 && n * unit() == 0) by (nonlinear_arith)
            requires
                n >= 0,
                unit() > 0,
                n * unit() <= 0,
        ;
        assert(magnitude_units(r.magnitude()) == 0);
        lemma_basic_div(0, unit());
        assert(r.truncated() == 0);
    } else {
        lemma_div_multiples_vanish(n, unit());
        assert(unit() * n == n * unit()) by (nonlinear_arith);
    }
}

/// A number that was rounded is whole.
pub proof fn rounded_numbers_are_whole(x: Scalar, r: Scalar)
    requires
        is_rounded(x, r),
    ensures
        is_whole(r.units() / unit(), r),
        2 * gap((r.units() / unit()) * unit(), x.units()) <= unit(),
{
    lemma_pow2_pos(149);
    lemma_fundamental_div_mod(r.units(), unit());
    assert(unit() * (r.units() / unit()) == (r.units() / unit()) * unit()) by (nonlinear_arith);
}

/// Numbers that stand for the same are the same, zero aside.
pub proof fn equal_numbers_have_one_pattern(a: Scalar, b: Scalar)
    requires
        !a.nan(),
        !b.nan(),
        a.units() == b.units(),
    ensures
        a == b || a.magnitude() == 0 && b.magnitude() == 0,
{
    broadcast use crate::scalar::group_scalar_order;

    assert(a.at_most(b) && b.at_most(a));
}

/// A range leaves the numbers in it alone, and moves the others to its nearer end.
pub proof fn range_moves_to_the_nearer_end(x: Scalar, low: Scalar, high: Scalar)
    requires
        !x.nan(),
        low.at_most(high),
    ensures
        ({
            let r = x.clamped(low, high);
            &&& low.at_most(r)
            &&& r.at_most(high)
            &&& low.at_most(x) && x.at_most(high) ==> r == x
            &&& x.units() < low.units() ==> r == low
            &&& x.units() > high.units() ==> r == high
            &&& forall|y: Scalar|
                low.at_most(y) && #[trigger] y.at_most(high) ==> gap(r.units(), x.units()) <= gap(
                    y.units(),
                    x.units(),
                )
        }),
{
}

/// The larger of two numbers is one of them, and below neither; the smaller one likewise.
pub proof fn larger_and_smaller_choose(x: Scalar, y: Scalar)
    requires
        !y.nan(),
    ensures
        y.at_most(x.larger(y)),
        x.larger(y) == x || x.larger(y) == y,
        !x.nan() ==> x.at_most(x.larger(y)),
        x.smaller(y).at_most(y),
        x.smaller(y) == x || x.smaller(y) == y,
        !x.nan() ==> x.smaller(y).at_most(x),
        x.nan() ==> x.larger(y) == y && x.smaller(y) == y,
{
}

/// Truncation goes towards zero, by less than one.
pub proof fn truncation_goes_towards_zero(x: Scalar)
    requires
        !x.nan(),
    ensures
        gap(x.truncated() * unit(), x.units()) < unit(),
        x.units() >= 0 ==> 0 <= x.truncated() * unit() <= x.units(),
        x.units() <= 0 ==> x.units() <= x.truncated() * unit() <= 0,
        i32::MIN <= x.truncated() <= i32::MAX ==> x.integer() == x.truncated(),
        0 <= x.truncated() <= usize::MAX ==> x.count() == x.truncated(),
{
    lemma_pow2_pos(149);
    lemma_units_not_negative(x);
    let m = magnitude_units(x.magnitude());
    let q = m / unit();
    lemma_fundamental_div_mod(m, unit());
    lemma_mod_bound(m, unit());
    assert(unit() * q == q * unit()) by (nonlinear_arith);
    assert((-q) * unit() == -(q * unit())) by (nonlinear_arith);
    lemma_div_pos_is_pos(m, unit());
    assert(q * unit() >= 0) by (nonlinear_arith)
        requires
            q >= 0,
            unit() > 0,
    ;
}

/// A number with the other sign is its opposite, and one without its sign its size.
pub proof fn signs_are_taken_off_and_turned(x: Scalar)
    ensures
        x.negated().units() == -x.units(),
        x.absolute().units() == gap(x.units(), 0),
        x.negated().nan() == x.nan(),
        x.absolute().nan() == x.nan(),
        x.negated().finite() == x.finite(),
        x.absolute().finite() == x.finite(),
{
    lemma_units_not_negative(x);
    assert(x.negated().magnitude() == x.magnitude());
    assert(x.negated().sign_bit() != x.sign_bit());
    assert(x.absolute().magnitude() == x.magnitude());
    assert(!x.absolute().sign_bit());
}

} // verus!

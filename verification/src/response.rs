//! How the settings of a processor act: harder ones never correct less, and shorter times
//! never retune slower.
use vstd::prelude::*;

use crate::arith::{Arith, Op};
use crate::config::unit_range;
use crate::processor::{
    cents_of, effective_strength, ratio_towards, target_of, Correction, FAR_CENTS, RAMP_CENTS,
};
use crate::psola::octave_range;
use crate::scalar::{num, Scalar, HALF, ONE, TWO, ZERO};
use crate::smoothing::{decay, MILLI};

verus! {

/// A number that lies within 0..=1.
pub open spec fn is_unit(x: Scalar) -> bool {
    num(ZERO).at_most(x) && x.at_most(num(ONE))
}

/// Arithmetic that keeps order where it rounds, as the one of IEEE 754 does for its first four
/// operations: of two operands the larger one does not give the smaller result. Sums, products
/// and differences that are exact come out so. The exponential is held to the same, and to stay
/// within 0..=1 where its exponent is not positive.
#[verifier::opaque]
pub open spec fn keeps_order(ar: Arith) -> bool {
    &&& forall|c: Scalar| c.finite() ==> (#[trigger] ar(Op::Mul(num(ZERO), c))).magnitude() == 0
    &&& forall|c: Scalar| c.finite() ==> (#[trigger] ar(Op::Mul(c, num(ZERO)))).magnitude() == 0
    &&& forall|z: Scalar| z.magnitude() == 0 ==> #[trigger] ar(Op::Add(num(ONE), z)) == num(ONE)
    &&& forall|a: Scalar, b: Scalar|
        a.finite() && b.finite() && a.at_most(b) ==> (#[trigger] ar(
            Op::Add(num(ONE), a),
        )).at_most(#[trigger] ar(Op::Add(num(ONE), b)))
    &&& forall|a: Scalar|
        num(ONE).at_most(a) && a.at_most(num(TWO)) ==> num(ZERO).at_most(
            #[trigger] ar(Op::Sub(a, num(ONE))),
        ) && ar(Op::Sub(a, num(ONE))).finite()
    &&& forall|a: Scalar|
        num(HALF).at_most(a) && a.at_most(num(ONE)) ==> (#[trigger] ar(
            Op::Sub(a, num(ONE)),
        )).at_most(num(ZERO)) && ar(Op::Sub(a, num(ONE))).finite()
    &&& forall|a: Scalar, b: Scalar, c: Scalar|
        a.finite() && b.finite() && c.finite() && c.at_most(num(ZERO)) && a.at_most(b) ==> (
        #[trigger] ar(Op::Mul(c, b))).at_most(#[trigger] ar(Op::Mul(c, a)))
    &&& forall|a: Scalar, b: Scalar, c: Scalar|
        a.finite() && b.finite() && c.finite() && a.at_most(b) ==> (#[trigger] ar(
            Op::Sub(c, b),
        )).at_most(#[trigger] ar(Op::Sub(c, a)))
    &&& forall|a: Scalar, b: Scalar, c: Scalar|
        a.finite() && b.finite() && c.finite() && num(ZERO).at_most(c) && a.at_most(b) ==> (
        #[trigger] ar(Op::Mul(a, c))).at_most(#[trigger] ar(Op::Mul(b, c)))
    &&& forall|a: Scalar, b: Scalar, c: Scalar|
        a.finite() && b.finite() && c.finite() && num(ZERO).at_most(c) && a.at_most(b) ==> (
        #[trigger] ar(Op::Mul(c, a))).at_most(#[trigger] ar(Op::Mul(c, b)))
    &&& forall|a: Scalar, b: Scalar|
        a.finite() && is_unit(b) ==> (#[trigger] ar(Op::Mul(a, b))).finite()
    &&& forall|a: Scalar, b: Scalar|
        is_unit(a) && b.finite() ==> (#[trigger] ar(Op::Mul(a, b))).finite()
    &&& forall|a: Scalar, b: Scalar|
        a.at_most(b) ==> (#[trigger] ar(Op::Div(a, num(RAMP_CENTS)))).at_most(
            #[trigger] ar(Op::Div(b, num(RAMP_CENTS))),
        )
    &&& forall|a: Scalar, t: Scalar, u: Scalar|
        a.finite() && a.at_most(num(ZERO)) && num(ONE).at_most(t) && t.at_most(u) ==> (
        #[trigger] ar(Op::Div(a, t))).at_most(#[trigger] ar(Op::Div(a, u)))
    &&& forall|a: Scalar, b: Scalar, t: Scalar|
        a.finite() && b.finite() && a.at_most(b) && num(ONE).at_most(t) ==> (#[trigger] ar(
            Op::Div(a, t),
        )).at_most(#[trigger] ar(Op::Div(b, t)))
    &&& forall|a: Scalar, t: Scalar|
        a.finite() && a.at_most(num(ZERO)) && num(ONE).at_most(t) ==> (#[trigger] ar(
            Op::Div(a, t),
        )).at_most(num(ZERO))
    &&& forall|i: i128, j: i128|
        0 <= i <= j <= u64::MAX ==> (#[trigger] ar(Op::FromInt(i))).at_most(
            #[trigger] ar(Op::FromInt(j)),
        )
    &&& forall|i: i128|
        0 <= i <= u64::MAX ==> num(ZERO).at_most(#[trigger] ar(Op::FromInt(i))) && ar(
            Op::FromInt(i),
        ).finite()
    &&& forall|a: Scalar| a.at_most(num(ZERO)) ==> is_unit(#[trigger] ar(Op::Exp(a)))
    &&& forall|a: Scalar, b: Scalar|
        a.at_most(b) ==> (#[trigger] ar(Op::Exp(a))).at_most(#[trigger] ar(Op::Exp(b)))
}

proof fn lemma_difference(ar: Arith, c: Scalar, a: Scalar, b: Scalar)
    requires
        keeps_order(ar),
        a.finite(),
        b.finite(),
        c.finite(),
        a.at_most(b),
    ensures
        ar(Op::Sub(c, b)).at_most(ar(Op::Sub(c, a))),
{
    reveal(keeps_order);
}

proof fn lemma_product(ar: Arith, a: Scalar, b: Scalar, c: Scalar)
    requires
        keeps_order(ar),
        a.finite(),
        b.finite(),
        c.finite(),
        num(ZERO).at_most(c),
        a.at_most(b),
    ensures
        ar(Op::Mul(a, c)).at_most(ar(Op::Mul(b, c))),
        ar(Op::Mul(c, a)).at_most(ar(Op::Mul(c, b))),
{
    reveal(keeps_order);
}

proof fn lemma_zero_product(ar: Arith, c: Scalar)
    requires
        keeps_order(ar),
        c.finite(),
    ensures
        num(ZERO).at_most(ar(Op::Mul(num(ZERO), c))),
{
    reveal(keeps_order);
    broadcast use crate::scalar::group_scalar_order;

}

proof fn lemma_finite_product(ar: Arith, a: Scalar, b: Scalar)
    requires
        keeps_order(ar),
        a.finite() && is_unit(b) || is_unit(a) && b.finite(),
    ensures
        ar(Op::Mul(a, b)).finite(),
{
    reveal(keeps_order);
}

proof fn lemma_ramp(ar: Arith, a: Scalar, b: Scalar)
    requires
        keeps_order(ar),
        a.at_most(b),
    ensures
        ar(Op::Div(a, num(RAMP_CENTS))).at_most(ar(Op::Div(b, num(RAMP_CENTS)))),
{
    reveal(keeps_order);
}

proof fn lemma_exponent(ar: Arith, a: Scalar, t: Scalar, u: Scalar)
    requires
        keeps_order(ar),
        a.finite(),
        a.at_most(num(ZERO)),
        num(ONE).at_most(t),
        t.at_most(u),
    ensures
        ar(Op::Exp(ar(Op::Div(a, t)))).at_most(ar(Op::Exp(ar(Op::Div(a, u))))),
{
    reveal(keeps_order);
    assert(ar(Op::Div(a, t)).at_most(ar(Op::Div(a, u))));
}

proof fn lemma_above_one(ar: Arith, raw: Scalar, a: Scalar, b: Scalar)
    requires
        keeps_order(ar),
        num(ONE).at_most(raw),
        raw.at_most(num(TWO)),
        is_unit(a),
        is_unit(b),
        a.at_most(b),
    ensures
        ({
            let way = ar(Op::Sub(raw, num(ONE)));
            let x = ar(Op::Add(num(ONE), ar(Op::Mul(way, a))));
            let y = ar(Op::Add(num(ONE), ar(Op::Mul(way, b))));
            num(ONE).at_most(x) && x.at_most(y)
        }),
{
    lemma_unit_is_finite(a);
    lemma_unit_is_finite(b);
    reveal(keeps_order);
    let way = ar(Op::Sub(raw, num(ONE)));
    let none = ar(Op::Mul(way, num(ZERO)));
    assert(none.finite() && ar(Op::Add(num(ONE), none)) == num(ONE));
    assert(num(ZERO).finite());
    assert(none.at_most(ar(Op::Mul(way, a))));
    assert(ar(Op::Mul(way, a)).at_most(ar(Op::Mul(way, b))));
    assert(ar(Op::Mul(way, a)).finite() && ar(Op::Mul(way, b)).finite());
}

proof fn lemma_below_one(ar: Arith, raw: Scalar, a: Scalar, b: Scalar)
    requires
        keeps_order(ar),
        num(HALF).at_most(raw),
        raw.at_most(num(ONE)),
        is_unit(a),
        is_unit(b),
        a.at_most(b),
    ensures
        ({
            let way = ar(Op::Sub(raw, num(ONE)));
            let x = ar(Op::Add(num(ONE), ar(Op::Mul(way, a))));
            let y = ar(Op::Add(num(ONE), ar(Op::Mul(way, b))));
            x.at_most(num(ONE)) && y.at_most(x)
        }),
{
    lemma_unit_is_finite(a);
    lemma_unit_is_finite(b);
    reveal(keeps_order);
    let way = ar(Op::Sub(raw, num(ONE)));
    let none = ar(Op::Mul(way, num(ZERO)));
    assert(none.finite() && ar(Op::Add(num(ONE), none)) == num(ONE));
    assert(num(ZERO).finite());
    assert(ar(Op::Mul(way, a)).at_most(none));
    assert(ar(Op::Mul(way, b)).at_most(ar(Op::Mul(way, a))));
    assert(ar(Op::Mul(way, a)).finite() && ar(Op::Mul(way, b)).finite());
}

/// The share of a deviation that is corrected: none within the dead zone.
pub open spec fn corrected_share(ar: Arith, c: Correction, cents: Scalar) -> Scalar {
    if cents.below(c.dead_zone_cents) {
        num(ZERO)
    } else {
        effective_strength(ar, c, cents)
    }
}

/// How hard a deviation is corrected for its size.
pub open spec fn style_of(ar: Arith, aggressiveness: Scalar, cents: Scalar) -> Scalar {
    let far = unit_range(ar(Op::Div(cents, num(FAR_CENTS))));
    ar(Op::Add(aggressiveness, ar(Op::Mul(ar(Op::Sub(num(ONE), aggressiveness)), far))))
}

proof fn lemma_unit_range_keeps_order(a: Scalar, b: Scalar)
    requires
        a.at_most(b),
    ensures
        unit_range(a).at_most(unit_range(b)),
        is_unit(unit_range(a)),
        is_unit(unit_range(b)),
{
    broadcast use crate::scalar::group_scalar_order;

}

proof fn lemma_unit_is_finite(x: Scalar)
    requires
        is_unit(x),
    ensures
        x.finite(),
        num(ZERO).at_most(x),
{
    broadcast use crate::scalar::group_scalar_order;

}

proof fn lemma_transitive(a: Scalar, b: Scalar, c: Scalar)
    requires
        a.at_most(b),
        b.at_most(c),
    ensures
        a.at_most(c),
{
    broadcast use crate::scalar::group_scalar_order;

}

/// The settings `d` are no weaker than `c`, have no wider dead zone, and give no softer style to
/// a deviation. That more aggressiveness gives a harder style, for the deviation at hand, is
/// asked of the arithmetic as a whole, since three of its roundings meet there.
pub open spec fn is_harder(ar: Arith, c: Correction, d: Correction, cents: Scalar) -> bool {
    &&& is_unit(c.strength)
    &&& is_unit(d.strength)
    &&& c.strength.at_most(d.strength)
    &&& d.dead_zone_cents.at_most(c.dead_zone_cents)
    &&& c.dead_zone_cents.finite()
    &&& d.dead_zone_cents.finite()
    &&& num(ZERO).at_most(style_of(ar, c.aggressiveness, cents))
    &&& style_of(ar, c.aggressiveness, cents).at_most(style_of(ar, d.aggressiveness, cents))
    &&& style_of(ar, d.aggressiveness, cents).finite()
}

/// Settings that are stronger, more aggressive or have a narrower dead zone never correct a
/// smaller share of a deviation, by an arithmetic that keeps order.
pub proof fn harder_settings_correct_no_less(
    ar: Arith,
    c: Correction,
    d: Correction,
    cents: Scalar,
)
    requires
        keeps_order(ar),
        cents.finite(),
        is_harder(ar, c, d, cents),
    ensures
        corrected_share(ar, c, cents).at_most(corrected_share(ar, d, cents)),
        is_unit(corrected_share(ar, c, cents)),
        is_unit(corrected_share(ar, d, cents)),
{
    let (s, t) = (style_of(ar, c.aggressiveness, cents), style_of(ar, d.aggressiveness, cents));
    assert(s.finite() && num(ZERO).at_most(t)) by {
        broadcast use crate::scalar::group_scalar_order;

    }
    lemma_unit_is_finite(c.strength);
    lemma_unit_is_finite(d.strength);
    let p = ar(Op::Sub(cents, c.dead_zone_cents));
    let q = ar(Op::Sub(cents, d.dead_zone_cents));
    lemma_difference(ar, cents, d.dead_zone_cents, c.dead_zone_cents);
    lemma_ramp(ar, p, q);
    let (v, w) = (ar(Op::Div(p, num(RAMP_CENTS))), ar(Op::Div(q, num(RAMP_CENTS))));
    let (ramp, higher) = (unit_range(v), unit_range(w));
    lemma_unit_range_keeps_order(v, w);
    lemma_unit_is_finite(ramp);
    lemma_unit_is_finite(higher);
    lemma_weighted_share(ar, c.strength, d.strength, s, t, ramp, higher);
    assert(is_unit(num(ZERO))) by {
        broadcast use crate::scalar::group_scalar_order;

    }
    assert(corrected_share(ar, c, cents).at_most(corrected_share(ar, d, cents))) by {
        lemma_dead_zones(
            cents,
            c.dead_zone_cents,
            d.dead_zone_cents,
            effective_strength(ar, c, cents),
            effective_strength(ar, d, cents),
        );
    }
}

/// The product of three factors, none of them negative, grows with each of them.
proof fn lemma_weighted_share(
    ar: Arith,
    a: Scalar,
    b: Scalar,
    s: Scalar,
    t: Scalar,
    p: Scalar,
    q: Scalar,
)
    requires
        keeps_order(ar),
        is_unit(a),
        is_unit(b),
        is_unit(p),
        is_unit(q),
        a.at_most(b),
        s.at_most(t),
        p.at_most(q),
        s.finite(),
        t.finite(),
        num(ZERO).at_most(s),
        num(ZERO).at_most(t),
    ensures
        ({
            let x = unit_range(ar(Op::Mul(ar(Op::Mul(a, s)), p)));
            let y = unit_range(ar(Op::Mul(ar(Op::Mul(b, t)), q)));
            x.at_most(y) && is_unit(x) && is_unit(y)
        }),
{
    lemma_unit_is_finite(a);
    lemma_unit_is_finite(b);
    lemma_unit_is_finite(p);
    lemma_unit_is_finite(q);
    let (x, y) = (ar(Op::Mul(a, s)), ar(Op::Mul(b, t)));
    let between = ar(Op::Mul(b, s));
    lemma_product(ar, a, b, s);
    lemma_product(ar, s, t, b);
    lemma_transitive(x, between, y);
    lemma_finite_product(ar, a, s);
    lemma_finite_product(ar, b, t);
    lemma_zero_product(ar, t);
    assert(num(ZERO).finite());
    lemma_product(ar, num(ZERO), b, t);
    lemma_transitive(num(ZERO), ar(Op::Mul(num(ZERO), t)), y);
    let (v, w) = (ar(Op::Mul(x, p)), ar(Op::Mul(y, q)));
    let middle = ar(Op::Mul(y, p));
    lemma_product(ar, x, y, p);
    lemma_product(ar, p, q, y);
    lemma_transitive(v, middle, w);
    lemma_unit_range_keeps_order(v, w);
}

proof fn lemma_dead_zones(cents: Scalar, wide: Scalar, narrow: Scalar, a: Scalar, b: Scalar)
    requires
        narrow.at_most(wide),
        a.at_most(b),
        is_unit(b),
    ensures
        (if cents.below(wide) {
            num(ZERO)
        } else {
            a
        }).at_most(
            if cents.below(narrow) {
                num(ZERO)
            } else {
                b
            },
        ),
{
    broadcast use crate::scalar::group_scalar_order;

}

/// The ratio that a pitch is moved by is the share of the way from 1 to the full ratio; within
/// the dead zone it is 1.
pub proof fn ratio_goes_the_corrected_share(ar: Arith, c: Correction, hz: Scalar)
    ensures
        ({
            let raw = octave_range(ar(Op::Div(target_of(ar, c, hz), hz)));
            let cents = cents_of(ar, raw);
            let share = corrected_share(ar, c, cents);
            ratio_towards(ar, c, hz) == if cents.below(c.dead_zone_cents) {
                num(ONE)
            } else {
                octave_range(
                    ar(Op::Add(num(ONE), ar(Op::Mul(ar(Op::Sub(raw, num(ONE))), share)))),
                )
            }
        }),
{
}

/// How far a ratio is from 1, exactly, in the units that numbers are counted in.
pub open spec fn distance_from_one(ratio: Scalar) -> int {
    let way = ratio.units() - num(ONE).units();
    if way < 0 {
        -way
    } else {
        way
    }
}

proof fn lemma_octave_range_keeps_order(a: Scalar, b: Scalar)
    requires
        a.at_most(b),
    ensures
        octave_range(a).at_most(octave_range(b)),
        octave_range(num(ONE)) == num(ONE),
{
    broadcast use crate::scalar::group_scalar_order;

}

proof fn lemma_sides(x: Scalar, y: Scalar)
    ensures
        num(ONE).at_most(x) && x.at_most(y) ==> distance_from_one(x) <= distance_from_one(y),
        x.at_most(num(ONE)) && y.at_most(x) ==> distance_from_one(x) <= distance_from_one(y),
{
}

proof fn lemma_in_octave(x: Scalar)
    requires
        !x.nan(),
    ensures
        num(HALF).at_most(octave_range(x)),
        octave_range(x).at_most(num(TWO)),
        num(ONE).at_most(octave_range(x)) || octave_range(x).at_most(num(ONE)),
{
    broadcast use crate::scalar::group_scalar_order;

}

/// Settings that are stronger, more aggressive or have a narrower dead zone never move a pitch
/// less towards the same target: the ratio that they give is no nearer to 1, and on the same
/// side of it.
pub proof fn harder_settings_move_no_less(ar: Arith, c: Correction, d: Correction, hz: Scalar)
    requires
        keeps_order(ar),
        target_of(ar, c, hz) == target_of(ar, d, hz),
        !ar(Op::Div(target_of(ar, c, hz), hz)).nan(),
        ({
            let cents = cents_of(ar, octave_range(ar(Op::Div(target_of(ar, c, hz), hz))));
            cents.finite() && is_harder(ar, c, d, cents)
        }),
    ensures
        ({
            let raw = octave_range(ar(Op::Div(target_of(ar, c, hz), hz)));
            let (x, y) = (ratio_towards(ar, c, hz), ratio_towards(ar, d, hz));
            &&& distance_from_one(x) <= distance_from_one(y)
            &&& num(ONE).at_most(raw) ==> num(ONE).at_most(x) && x.at_most(y)
            &&& raw.at_most(num(ONE)) ==> x.at_most(num(ONE)) && y.at_most(x)
        }),
{
    let whole = ar(Op::Div(target_of(ar, c, hz), hz));
    let raw = octave_range(whole);
    let cents = cents_of(ar, raw);
    lemma_in_octave(whole);
    harder_settings_correct_no_less(ar, c, d, cents);
    let (a, b) = (corrected_share(ar, c, cents), corrected_share(ar, d, cents));
    let (x, y) = (ratio_towards(ar, c, hz), ratio_towards(ar, d, hz));
    lemma_shares_move(ar, raw, a, b);
    lemma_shares_move(ar, raw, num(ZERO), b);
    assert(!cents.below(c.dead_zone_cents) ==> !cents.below(d.dead_zone_cents)) by {
        broadcast use crate::scalar::group_scalar_order;

    }
    assert(num(ONE).at_most(num(ONE)));
    lemma_sides(x, y);
}

/// Of two shares of the way, the larger one leads no less far from 1.
proof fn lemma_shares_move(ar: Arith, raw: Scalar, a: Scalar, b: Scalar)
    requires
        keeps_order(ar),
        num(HALF).at_most(raw),
        raw.at_most(num(TWO)),
        is_unit(b),
        a.at_most(b),
        is_unit(a),
    ensures
        ({
            let way = ar(Op::Sub(raw, num(ONE)));
            let x = octave_range(ar(Op::Add(num(ONE), ar(Op::Mul(way, a)))));
            let y = octave_range(ar(Op::Add(num(ONE), ar(Op::Mul(way, b)))));
            &&& num(ONE).at_most(raw) ==> num(ONE).at_most(x) && x.at_most(y)
            &&& raw.at_most(num(ONE)) ==> x.at_most(num(ONE)) && y.at_most(x)
        }),
{
    let way = ar(Op::Sub(raw, num(ONE)));
    let x = ar(Op::Add(num(ONE), ar(Op::Mul(way, a))));
    let y = ar(Op::Add(num(ONE), ar(Op::Mul(way, b))));
    if num(ONE).at_most(raw) {
        lemma_above_one(ar, raw, a, b);
        lemma_octave_range_keeps_order(num(ONE), x);
        lemma_octave_range_keeps_order(x, y);
    }
    if raw.at_most(num(ONE)) {
        lemma_below_one(ar, raw, a, b);
        lemma_octave_range_keeps_order(x, num(ONE));
        lemma_octave_range_keeps_order(y, x);
    }
}

proof fn lemma_milli()
    ensures
        is_unit(num(MILLI)),
        num(MILLI).finite(),
        num(ZERO).at_most(num(MILLI)),
{
    broadcast use crate::scalar::group_scalar_order;

}

proof fn lemma_at_least_one(a: Scalar, b: Scalar)
    requires
        a.at_most(b),
    ensures
        ({
            let (t, u) = (a.larger(num(ONE)), b.larger(num(ONE)));
            &&& num(ONE).at_most(t)
            &&& t.at_most(u)
            &&& a.finite() ==> t.finite()
            &&& b.finite() ==> u.finite()
        }),
{
    broadcast use crate::scalar::group_scalar_order;

}

proof fn lemma_negated(n: Scalar, m: Scalar)
    requires
        n.finite(),
        num(ZERO).at_most(n),
        n.at_most(m),
    ensures
        n.negated().finite(),
        n.negated().at_most(num(ZERO)),
        m.finite() ==> m.negated().finite(),
        m.negated().at_most(n.negated()),
{
    broadcast use crate::scalar::group_scalar_order;

}

/// The samples of a step: at least one.
pub open spec fn hop_of(hop_size: usize) -> i128 {
    if hop_size == 0 {
        1
    } else {
        hop_size as i128
    }
}

/// The samples of a time in milliseconds, at least a millisecond and at least one sample.
pub open spec fn tau_of(ar: Arith, time_ms: Scalar, sample_rate: Scalar) -> Scalar {
    let ms = time_ms.larger(num(ONE));
    ar(Op::Mul(ar(Op::Mul(ms, num(MILLI))), sample_rate)).larger(num(ONE))
}

proof fn lemma_count(ar: Arith, i: i128, j: i128)
    requires
        keeps_order(ar),
        0 <= i <= j <= u64::MAX,
    ensures
        ar(Op::FromInt(i)).at_most(ar(Op::FromInt(j))),
        num(ZERO).at_most(ar(Op::FromInt(i))),
        ar(Op::FromInt(i)).finite(),
        ar(Op::FromInt(j)).finite(),
{
    reveal(keeps_order);
}

proof fn lemma_tau(ar: Arith, time_ms: Scalar, sample_rate: Scalar)
    ensures
        num(ONE).at_most(tau_of(ar, time_ms, sample_rate)),
{
    broadcast use crate::scalar::group_scalar_order;

}

/// What a step leaves of a distance is a share of it, whatever the time and the rate.
pub proof fn a_step_leaves_a_share(
    ar: Arith,
    time_ms: Scalar,
    sample_rate: Scalar,
    hop_size: usize,
)
    requires
        keeps_order(ar),
    ensures
        is_unit(decay(ar, time_ms, sample_rate, hop_size)),
{
    let n = ar(Op::FromInt(hop_of(hop_size)));
    lemma_count(ar, hop_of(hop_size), hop_of(hop_size));
    lemma_negated(n, n);
    lemma_tau(ar, time_ms, sample_rate);
    reveal(keeps_order);
    assert(ar(Op::Div(n.negated(), tau_of(ar, time_ms, sample_rate))).at_most(num(ZERO)));
}

/// A step of more samples leaves no more of the distance, by an arithmetic that keeps order.
pub proof fn longer_steps_leave_no_more(
    ar: Arith,
    time_ms: Scalar,
    sample_rate: Scalar,
    shorter: usize,
    longer: usize,
)
    requires
        keeps_order(ar),
        shorter <= longer,
    ensures
        decay(ar, time_ms, sample_rate, longer).at_most(
            decay(ar, time_ms, sample_rate, shorter),
        ),
{
    let n = ar(Op::FromInt(hop_of(shorter)));
    let m = ar(Op::FromInt(hop_of(longer)));
    lemma_count(ar, hop_of(shorter), hop_of(longer));
    lemma_negated(n, m);
    lemma_tau(ar, time_ms, sample_rate);
    let tau = tau_of(ar, time_ms, sample_rate);
    reveal(keeps_order);
    assert(ar(Op::Div(m.negated(), tau)).at_most(ar(Op::Div(n.negated(), tau))));
}

/// A time below a millisecond, or one that is not a number, counts as a millisecond, and a step
/// of no sample as one of a sample.
pub proof fn shortest_times_and_steps_count_as_one(
    ar: Arith,
    time_ms: Scalar,
    sample_rate: Scalar,
    hop_size: usize,
)
    ensures
        time_ms.nan() || time_ms.below(num(ONE)) ==> decay(ar, time_ms, sample_rate, hop_size)
            == decay(ar, num(ONE), sample_rate, hop_size),
        decay(ar, time_ms, sample_rate, 0) == decay(ar, time_ms, sample_rate, 1),
{
    broadcast use crate::scalar::group_scalar_order;

}

/// A shorter time leaves no more of the distance at a step, by an arithmetic that keeps order.
pub proof fn shorter_times_retune_no_slower(
    ar: Arith,
    shorter: Scalar,
    longer: Scalar,
    sample_rate: Scalar,
    hop_size: usize,
)
    requires
        keeps_order(ar),
        shorter.finite(),
        longer.finite(),
        shorter.at_most(longer),
        sample_rate.finite(),
        num(ZERO).at_most(sample_rate),
    ensures
        decay(ar, shorter, sample_rate, hop_size).at_most(
            decay(ar, longer, sample_rate, hop_size),
        ),
{
    let (a, b) = (shorter.larger(num(ONE)), longer.larger(num(ONE)));
    lemma_at_least_one(shorter, longer);
    lemma_milli();
    let (p, q) = (ar(Op::Mul(a, num(MILLI))), ar(Op::Mul(b, num(MILLI))));
    lemma_product(ar, a, b, num(MILLI));
    lemma_finite_product(ar, a, num(MILLI));
    lemma_finite_product(ar, b, num(MILLI));
    let (v, w) = (ar(Op::Mul(p, sample_rate)), ar(Op::Mul(q, sample_rate)));
    lemma_product(ar, p, q, sample_rate);
    lemma_at_least_one(v, w);
    let n = ar(Op::FromInt(hop_of(hop_size)));
    lemma_count(ar, hop_of(hop_size), hop_of(hop_size));
    lemma_negated(n, n);
    lemma_exponent(ar, n.negated(), v.larger(num(ONE)), w.larger(num(ONE)));
}

} // verus!

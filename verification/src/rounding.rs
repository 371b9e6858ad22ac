//! How near a computed amount is to the exact result, and where it is the exact result.
//!
//! The value of a finite amount is `over()` over two to the power 1074. An amount that was rounded
//! once is off by at most one part in two to the power 53, or by half a grain where that is more.

use vstd::arithmetic::power2::{
    lemma2_to64, lemma2_to64_rest, lemma_pow2_adds, lemma_pow2_pos, lemma_pow2_strictly_increases,
    pow2,
};
use vstd::prelude::*;

use crate::quantity::{
    lemma_bits_order_values, lemma_common_factor, lemma_exact_values_stay, lemma_level_found,
    lemma_nearest_fits, lemma_nearest_is_duration, lemma_nearest_monotonic, level_from, nearest,
    round_half_even, Quantity, GRAIN, LEVEL, LEVELS,
};
use crate::table::lemma_rounding_is_nearest;

verus! {

/// What an amount on `level` with `steps` steps is worth.
proof fn lemma_over_of_bits(level: nat, steps: nat, q: Quantity)
    requires
        q.bits == level * LEVEL as nat + steps,
        steps <= 2 * LEVEL,
        level == 0 || steps >= LEVEL,
        q.is_finite(),
        !q.minus(),
    ensures
        q.over() == steps * pow2(level),
{
    assert(q.magnitude() == q.bits);
    if steps == 2 * LEVEL {
        assert(q.bits == (level + 2) * LEVEL);
        assert(q.bits / LEVEL == level + 2);
        assert(q.level() == level + 1);
        assert(q.steps() == LEVEL);
        lemma_pow2_adds(1, level);
        lemma2_to64();
        assert(LEVEL as nat * (2 * pow2(level)) == (2 * LEVEL as nat) * pow2(level))
            by (nonlinear_arith);
    } else if level == 0 && steps < LEVEL {
        assert(q.level() == 0);
        assert(q.steps() == steps);
    } else {
        assert(q.bits / LEVEL == level + 1);
        assert(q.level() == level);
        assert(q.steps() == steps);
    }
}

/// A nearest amount is on the level of the exact result, with the nearest number of steps.
#[verifier::spinoff_prover]
proof fn lemma_nearest_over(n: nat, d: nat)
    requires
        d > 0,
    ensures
        nearest(n, d).is_finite() ==> level_from(n, d, 0) < LEVELS && nearest(n, d).over()
            == round_half_even(
            n * pow2(GRAIN as nat),
            d * pow2(level_from(n, d, 0)),
        ) * pow2(level_from(n, d, 0)),
        d * pow2(level_from(n, d, 0)) > 0,
{
    let level = level_from(n, d, 0);
    let x = n * pow2(GRAIN as nat);
    let p = pow2(level);
    let step = d * p;
    lemma_nearest_fits(n, d);
    lemma_level_found(n, d, 0);
    lemma_pow2_pos(level);
    assert(step > 0) by (nonlinear_arith)
        requires
            step == d * p,
            d > 0,
            p > 0,
    ;
    if nearest(n, d).is_finite() {
        lemma2_to64_rest();
        lemma_rounding_is_nearest(x, step);
        let steps = round_half_even(x, step);
        lemma_pow2_adds(53, level);
        assert(d * (pow2(53) * p) == step * pow2(53)) by (nonlinear_arith)
            requires
                step == d * p,
        ;
        assert(steps <= 2 * LEVEL) by (nonlinear_arith)
            requires
                2 * (steps * step) <= 2 * x + step,
                x < step * (2 * LEVEL),
                step > 0,
        ;
        if level > 0 {
            assert((53 + level - 1) as nat == 52 + level);
            lemma_pow2_adds(52, level);
            assert(d * (pow2(52) * p) == step * pow2(52)) by (nonlinear_arith)
                requires
                    step == d * p,
            ;
            assert(steps >= LEVEL) by (nonlinear_arith)
                requires
                    2 * x <= 2 * (steps * step) + step,
                    x >= step * LEVEL,
                    step > 0,
            ;
        }
        lemma_over_of_bits(level, steps, nearest(n, d));
    }
}

/// A nearest amount is off by at most one part in two to the power 53, or by half a grain; it is
/// infinite only beyond two to the power 1023.
#[verifier::spinoff_prover]
pub proof fn lemma_nearest_is_near(n: nat, d: nat)
    requires
        d > 0,
    ensures
        ({
            let r = nearest(n, d);
            let x = n * pow2(1074);
            &&& !r.minus()
            &&& r.is_finite() ==> 0x20_0000_0000_0000 * (r.over() * d) <= 0x20_0000_0000_0000 * x
                + x + 0x10_0000_0000_0000 * d
            &&& r.is_finite() ==> 0x20_0000_0000_0000 * x <= 0x20_0000_0000_0000 * (r.over() * d)
                + x + 0x10_0000_0000_0000 * d
            &&& !r.is_finite() ==> r.is_infinite() && x >= d * pow2(2097)
        }),
{
    let r = nearest(n, d);
    let x = n * pow2(1074);
    let level = level_from(n, d, 0);
    let p = pow2(level);
    let step = d * p;
    lemma_nearest_is_duration();
    lemma_nearest_over(n, d);
    lemma_level_found(n, d, 0);
    lemma_nearest_fits(n, d);
    lemma2_to64_rest();
    if level > 0 {
        assert((53 + level - 1) as nat == 52 + level);
        lemma_pow2_adds(52, level);
        assert(d * (pow2(52) * p) == step * 0x10_0000_0000_0000) by (nonlinear_arith)
            requires
                step == d * p,
                pow2(52) == 0x10_0000_0000_0000,
        ;
        assert(x >= step * 0x10_0000_0000_0000);
    } else {
        lemma2_to64();
        assert(step == d) by (nonlinear_arith)
            requires
                step == d * p,
                p == 1,
        ;
    }
    if r.is_finite() {
        let s = round_half_even(x, step);
        lemma_rounding_is_nearest(x, step);
        assert(r.over() * d == s * step) by (nonlinear_arith)
            requires
                r.over() == s * p,
                step == d * p,
        ;
    } else {
        if level < LEVELS {
            let s = round_half_even(x, step);
            assert(level * LEVEL + s == 2047 * LEVEL);
            lemma_rounding_is_nearest(x, step);
            lemma_pow2_adds(53, level);
            assert(d * (pow2(53) * p) == step * pow2(53)) by (nonlinear_arith)
                requires
                    step == d * p,
            ;
            assert(s <= 2 * LEVEL) by (nonlinear_arith)
                requires
                    2 * (s * step) <= 2 * x + step,
                    x < step * (2 * LEVEL),
                    step > 0,
            ;
            assert(level == 2045);
        } else {
            let (a, b) = (pow2(2097), pow2(2098));
            lemma_pow2_strictly_increases(2097, 2098);
            assert(d * a <= d * b) by (nonlinear_arith)
                requires
                    a <= b,
            ;
        }
    }
}

/// Of all integers, the rounded quotient times the divisor is nearest.
proof fn lemma_no_multiple_is_nearer(a: nat, b: nat, m: nat)
    requires
        b > 0,
    ensures
        ({
            let s = round_half_even(a, b);
            let near = if s * b >= a {
                s * b - a
            } else {
                a - s * b
            };
            let far = if m * b >= a {
                m * b - a
            } else {
                a - m * b
            };
            near <= far
        }),
{
    let s = round_half_even(a, b);
    lemma_rounding_is_nearest(a, b);
    if m > s {
        assert(m * b >= s * b + b) by (nonlinear_arith)
            requires
                m >= s + 1,
        ;
    } else if m < s {
        assert(m * b + b <= s * b) by (nonlinear_arith)
            requires
                m + 1 <= s,
        ;
    }
}

/// No finite amount is nearer to a fraction than the nearest amount, and where the next amount up
/// or down is as near, the nearest one is the one whose last binary digit is zero.
#[verifier::spinoff_prover]
pub proof fn lemma_no_amount_is_nearer(n: nat, d: nat, q: Quantity)
    requires
        d > 0,
        nearest(n, d).is_finite(),
        q.is_finite(),
        !q.minus(),
    ensures
        ({
            let r = nearest(n, d);
            let x = n * pow2(1074);
            let near = if r.over() * d >= x {
                r.over() * d - x
            } else {
                x - r.over() * d
            };
            let far = if q.over() * d >= x {
                q.over() * d - x
            } else {
                x - q.over() * d
            };
            &&& near <= far
            &&& near == far && (q.bits == r.bits + 1 || q.bits + 1 == r.bits) ==> r.bits % 2 == 0
        }),
{
    let r = nearest(n, d);
    let x = n * pow2(1074);
    let level = level_from(n, d, 0);
    let p = pow2(level);
    let step = d * p;
    let s = round_half_even(x, step);
    lemma_nearest_over(n, d);
    lemma_level_found(n, d, 0);
    lemma_nearest_fits(n, d);
    lemma2_to64_rest();
    lemma_pow2_pos(level);
    assert(r.over() * d == s * step) by (nonlinear_arith)
        requires
            r.over() == s * p,
            step == d * p,
    ;
    assert(r.bits == level * LEVEL as nat + s);
    lemma_rounding_is_nearest(x, step);
    lemma_rounding_breaks_ties(x, step);
    let (m, k) = (q.steps(), q.level());
    if k >= level {
        let up = pow2((k - level) as nat);
        lemma_pow2_adds((k - level) as nat, level);
        let t = m * up;
        assert(q.over() * d == t * step) by (nonlinear_arith)
            requires
                q.over() == m * (up * p),
                t == m * up,
                step == d * p,
        ;
        lemma_no_multiple_is_nearer(x, step, t);
        if t == s {
            assert(q.over() == r.over()) by (nonlinear_arith)
                requires
                    q.over() * d == t * step,
                    r.over() * d == s * step,
                    t == s,
                    d > 0,
            ;
            lemma_bits_order_values(q, r);
        } else if t > s {
            assert(t * step >= s * step + step) by (nonlinear_arith)
                requires
                    t >= s + 1,
            ;
        } else {
            assert(t * step + step <= s * step) by (nonlinear_arith)
                requires
                    t + 1 <= s,
            ;
        }
    } else {
        let down = pow2((level - 1) as nat);
        lemma_pow2_adds(1, (level - 1) as nat);
        lemma2_to64();
        let v = pow2(k);
        if k < level - 1 {
            lemma_pow2_strictly_increases(k, (level - 1) as nat);
        }
        lemma_pow2_pos(k);
        assert(q.over() < 0x10_0000_0000_0000 * p) by (nonlinear_arith)
            requires
                q.over() == m * v,
                m < 0x20_0000_0000_0000,
                v <= down,
                v > 0,
                p == 2 * down,
        ;
        assert(q.over() * d < 0x10_0000_0000_0000 * step) by (nonlinear_arith)
            requires
                q.over() < 0x10_0000_0000_0000 * p,
                step == d * p,
                d > 0,
        ;
        assert((53 + level - 1) as nat == 52 + level);
        lemma_pow2_adds(52, level);
        assert(d * (pow2(52) * p) == 0x10_0000_0000_0000 * step) by (nonlinear_arith)
            requires
                step == d * p,
                pow2(52) == 0x10_0000_0000_0000,
        ;
        lemma_no_multiple_is_nearer(x, step, 0x10_0000_0000_0000);
    }
}

/// What can be written as `m` times two to the power `t` grains, with `m` of at most 53 binary
/// digits, is not rounded.
#[verifier::spinoff_prover]
pub proof fn lemma_nearest_is_exact(n: nat, d: nat, m: nat, t: nat)
    requires
        d > 0,
        m < 0x20_0000_0000_0000,
        t < 2046,
        n * pow2(1074) == d * (m * pow2(t)),
    ensures
        nearest(n, d).is_finite(),
        !nearest(n, d).minus(),
        nearest(n, d).over() == m * pow2(t),
{
    let x = n * pow2(1074);
    let level = level_from(n, d, 0);
    let p = pow2(level);
    let step = d * p;
    let q = pow2(t);
    lemma_nearest_is_duration();
    lemma_nearest_over(n, d);
    lemma_level_found(n, d, 0);
    lemma_nearest_fits(n, d);
    lemma2_to64_rest();
    lemma_pow2_pos(t);
    lemma_pow2_pos(level);
    lemma_pow2_adds(53, t);
    let top = pow2(53 + t);
    assert(x < d * top) by (nonlinear_arith)
        requires
            x == d * (m * q),
            m < 0x20_0000_0000_0000,
            top == 0x20_0000_0000_0000 * q,
            d > 0,
            q > 0,
    ;
    if level > t {
        let below = pow2((53 + level - 1) as nat);
        if 53 + t < 53 + level - 1 {
            lemma_pow2_strictly_increases(53 + t, (53 + level - 1) as nat);
        }
        assert(d * top <= d * below) by (nonlinear_arith)
            requires
                top <= below,
        ;
        assert(false);
    }
    let up = pow2((t - level) as nat);
    lemma_pow2_adds((t - level) as nat, level);
    let steps = m * up;
    assert(x == steps * step) by (nonlinear_arith)
        requires
            x == d * (m * q),
            q == up * p,
            steps == m * up,
            step == d * p,
    ;
    assert(1 * step == step);
    lemma_common_factor(steps, 1, step);
    assert(steps % 1 == 0 && steps / 1 == steps);
    assert(round_half_even(x, step) == steps);
    assert(steps * p == m * q) by (nonlinear_arith)
        requires
            q == up * p,
            steps == m * up,
    ;
    lemma_pow2_adds(53, level);
    assert(d * (pow2(53) * p) == step * 0x20_0000_0000_0000) by (nonlinear_arith)
        requires
            step == d * p,
            pow2(53) == 0x20_0000_0000_0000,
    ;
    assert(steps < 0x20_0000_0000_0000) by (nonlinear_arith)
        requires
            steps * step < step * 0x20_0000_0000_0000,
            step > 0,
    ;
    assert(level * LEVEL + steps < 2047 * LEVEL);
}

/// Every integer below two to the power 53 is an amount.
pub proof fn lemma_integers_are_exact(n: nat)
    requires
        n < 0x20_0000_0000_0000,
    ensures
        Quantity::of(n).is_finite(),
        !Quantity::of(n).minus(),
        Quantity::of(n).over() == n * pow2(1074),
{
    assert(1 * (n * pow2(1074)) == n * pow2(1074));
    lemma_nearest_is_exact(n, 1, n, 1074);
}

/// An integer half way between two integers is rounded to the even one, and whatever is closer to
/// one of them to that one.
pub proof fn lemma_rounding_breaks_ties(a: nat, b: nat)
    requires
        b > 0,
    ensures
        2 * (round_half_even(a, b) * b) == 2 * a + b || 2 * a == 2 * (round_half_even(a, b) * b) + b
            ==> round_half_even(a, b) % 2 == 0,
{
    vstd::arithmetic::div_mod::lemma_fundamental_div_mod(a as int, b as int);
    let q = (a / b) as int;
    assert((q + 1) * b == q * b + b) by (nonlinear_arith);
    assert(q * b == b * q) by (nonlinear_arith);
}

/// A common factor above zero may be left out of a comparison.
pub proof fn lemma_factor_left_out(a: int, b: int, g: int)
    requires
        g > 0,
        a * g <= b * g,
    ensures
        a <= b,
{
    assert(a <= b) by (nonlinear_arith)
        requires
            g > 0,
            a * g <= b * g,
    ;
}

/// The order of amounts is the order of their values.
pub proof fn lemma_exceeds_compares_values(a: Quantity, b: Quantity)
    requires
        a.is_finite(),
        b.is_finite(),
    ensures
        a.exceeds(b) <==> (if a.minus() {
            -(a.over() as int)
        } else {
            a.over() as int
        }) > (if b.minus() {
            -(b.over() as int)
        } else {
            b.over() as int
        }),
{
    lemma_bits_order_values(a, b);
    lemma_bits_order_values(a, Quantity::zero());
    lemma_bits_order_values(b, Quantity::zero());
    lemma2_to64();
    assert(Quantity::zero().over() == 0) by {
        assert(Quantity::zero().steps() == 0);
        assert(0 * pow2(Quantity::zero().level()) == 0);
    }
}

/// A product with an integer is off by at most one rounding, and has the sign of the amount.
pub proof fn lemma_product_is_near(q: Quantity, k: nat)
    requires
        q.is_finite(),
    ensures
        ({
            let r = q.times(k);
            let y = q.over() * k;
            &&& r.minus() == q.minus()
            &&& r.is_finite() ==> 0x20_0000_0000_0000 * r.over() <= 0x20_0000_0000_0000 * y + y
                + 0x10_0000_0000_0000
            &&& r.is_finite() ==> 0x20_0000_0000_0000 * y <= 0x20_0000_0000_0000 * r.over() + y
                + 0x10_0000_0000_0000
            &&& !r.is_finite() ==> r.is_infinite() && y >= pow2(2097)
        }),
{
    let y = q.over() * k;
    lemma_grains_are_near(y);
    lemma_turning_keeps_the_value(nearest(y, pow2(1074)));
}

/// Turning the sign turns nothing else, and turning it twice turns nothing.
pub proof fn lemma_turning_keeps_the_value(q: Quantity)
    ensures
        q.turned().minus() == !q.minus(),
        q.turned().magnitude() == q.magnitude(),
        q.turned().over() == q.over(),
        q.turned().turned() == q,
{
    assert(q.turned().magnitude() == q.magnitude());
}

/// A quotient of amounts is off by at most one rounding, and has the sign of the dividend.
pub proof fn lemma_quotient_is_near(q: Quantity, w: Quantity)
    requires
        q.is_finite(),
        w.is_finite(),
        w.over() > 0,
    ensures
        ({
            let r = q.quotient(w);
            let x = q.over() * pow2(1074);
            &&& r.minus() == q.minus()
            &&& r.is_finite() ==> 0x20_0000_0000_0000 * (r.over() * w.over())
                <= 0x20_0000_0000_0000 * x + x + 0x10_0000_0000_0000 * w.over()
            &&& r.is_finite() ==> 0x20_0000_0000_0000 * x <= 0x20_0000_0000_0000 * (r.over()
                * w.over()) + x + 0x10_0000_0000_0000 * w.over()
            &&& !r.is_finite() ==> r.is_infinite() && x >= w.over() * pow2(2097)
        }),
{
    lemma_bits_order_values(w, Quantity::zero());
    lemma2_to64();
    assert(Quantity::zero().over() == 0) by {
        assert(Quantity::zero().steps() == 0);
        assert(0 * pow2(Quantity::zero().level()) == 0);
    }
    lemma_nearest_is_near(q.over(), w.over());
    lemma_turning_keeps_the_value(nearest(q.over(), w.over()));
}

/// A quotient with an integer is off by at most one rounding, and has the sign of the amount.
pub proof fn lemma_share_is_near(q: Quantity, k: nat)
    requires
        q.is_finite(),
        k > 0,
    ensures
        ({
            let r = q.divided(k);
            let y = q.over();
            &&& r.is_finite()
            &&& r.minus() == q.minus()
            &&& 0x20_0000_0000_0000 * (r.over() * k) <= 0x20_0000_0000_0000 * y + y
                + 0x10_0000_0000_0000 * k
            &&& 0x20_0000_0000_0000 * y <= 0x20_0000_0000_0000 * (r.over() * k) + y
                + 0x10_0000_0000_0000 * k
        }),
{
    let g = pow2(1074);
    let y = q.over();
    let r = nearest(y, g * k);
    lemma_pow2_pos(1074);
    assert(g * k > 0) by (nonlinear_arith)
        requires
            g > 0,
            k > 0,
    ;
    lemma_nearest_is_near(y, g * k);
    lemma_turning_keeps_the_value(r);
    let (p, m) = (0x20_0000_0000_0000int, 0x10_0000_0000_0000int);
    lemma_share_is_finite(q, k);
    let o = r.over();
    assert((p * (o * k)) * g == p * (o * (g * k))) by (nonlinear_arith);
    assert((p * y + y + m * k) * g == p * (y * g) + y * g + m * (g * k)) by (nonlinear_arith);
    lemma_factor_left_out(p * (o * k), p * y + y + m * k, g as int);
    assert((p * y) * g == p * (y * g)) by (nonlinear_arith);
    assert((p * (o * k) + y + m * k) * g == p * (o * (g * k)) + y * g + m * (g * k))
        by (nonlinear_arith);
    lemma_factor_left_out(p * y, p * (o * k) + y + m * k, g as int);
}

/// Dividing a finite amount by an integer above zero does not make it infinite.
proof fn lemma_share_is_finite(q: Quantity, k: nat)
    requires
        q.is_finite(),
        k > 0,
    ensures
        nearest(q.over(), pow2(1074) * k).is_finite(),
{
    let g = pow2(1074);
    let y = q.over();
    lemma_pow2_pos(1074);
    let plain = Quantity { bits: q.magnitude() as u64 };
    assert(plain.magnitude() == q.magnitude());
    assert(plain.over() == y);
    lemma_exact_values_stay(plain);
    assert(nearest(y, g) == plain);
    assert(g * k > 0) by (nonlinear_arith)
        requires
            g > 0,
            k > 0,
    ;
    // One part of `k` is at most all of it.
    lemma_common_nearest(y, g, k);
    assert(y <= y * k) by (nonlinear_arith)
        requires
            k > 0,
    ;
    lemma_nearest_monotonic(y, y * k, g * k);
}

/// A common factor of numerator and denominator changes nothing.
pub proof fn lemma_common_nearest(n: nat, d: nat, c: nat)
    requires
        d > 0,
        c > 0,
    ensures
        nearest(n * c, d * c) == nearest(n, d),
        d * c > 0,
{
    lemma_common_level(n, d, c, 0);
    let level = level_from(n, d, 0);
    let (g, p) = (pow2(GRAIN as nat), pow2(level));
    lemma_pow2_pos(level);
    assert(d * p > 0) by (nonlinear_arith)
        requires
            d > 0,
            p > 0,
    ;
    lemma_common_factor(n * g, d * p, c);
    assert((n * c) * g == (n * g) * c) by (nonlinear_arith);
    assert((d * c) * p == (d * p) * c) by (nonlinear_arith);
    assert(d * c > 0) by (nonlinear_arith)
        requires
            d > 0,
            c > 0,
    ;
}

proof fn lemma_common_level(n: nat, d: nat, c: nat, level: nat)
    requires
        c > 0,
    ensures
        level_from(n * c, d * c, level) == level_from(n, d, level),
    decreases LEVELS - level,
{
    if level < LEVELS {
        let (g, p) = (pow2(GRAIN as nat), pow2(53 + level));
        assert(((n * c) * g < (d * c) * p) == (n * g < d * p)) by (nonlinear_arith)
            requires
                c > 0,
        ;
        lemma_common_level(n, d, c, level + 1);
    }
}

/// A sum is off by at most one rounding.
pub proof fn lemma_sum_is_near(a: Quantity, b: Quantity)
    requires
        a.is_finite(),
        b.is_finite(),
    ensures
        ({
            let r = a.sum(b);
            let y = a.over() + b.over();
            &&& !r.minus()
            &&& r.is_finite() ==> 0x20_0000_0000_0000 * r.over() <= 0x20_0000_0000_0000 * y + y
                + 0x10_0000_0000_0000
            &&& r.is_finite() ==> 0x20_0000_0000_0000 * y <= 0x20_0000_0000_0000 * r.over() + y
                + 0x10_0000_0000_0000
            &&& !r.is_finite() ==> r.is_infinite() && y >= pow2(2097)
        }),
{
    lemma_grains_are_near(a.over() + b.over());
}

/// The amount nearest to a number of grains is off by at most one rounding.
pub proof fn lemma_grains_are_near(y: nat)
    ensures
        ({
            let r = nearest(y, pow2(1074));
            &&& !r.minus()
            &&& r.is_finite() ==> 0x20_0000_0000_0000 * r.over() <= 0x20_0000_0000_0000 * y + y
                + 0x10_0000_0000_0000
            &&& r.is_finite() ==> 0x20_0000_0000_0000 * y <= 0x20_0000_0000_0000 * r.over() + y
                + 0x10_0000_0000_0000
            &&& !r.is_finite() ==> r.is_infinite() && y >= pow2(2097)
        }),
{
    let g = pow2(1074);
    let r = nearest(y, g);
    let h = pow2(2097);
    lemma_pow2_pos(1074);
    lemma_nearest_is_near(y, g);
    let (p, m) = (0x20_0000_0000_0000int, 0x10_0000_0000_0000int);
    if r.is_finite() {
        let o = r.over();
        assert((p * o) * g == p * (o * g)) by (nonlinear_arith);
        assert((p * y + y + m) * g == p * (y * g) + y * g + m * g) by (nonlinear_arith);
        lemma_factor_left_out(p * o, p * y + y + m, g as int);
        assert((p * y) * g == p * (y * g)) by (nonlinear_arith);
        assert((p * o + y + m) * g == p * (o * g) + y * g + m * g) by (nonlinear_arith);
        lemma_factor_left_out(p * y, p * o + y + m, g as int);
    } else {
        assert(g * h == h * g) by (nonlinear_arith);
        lemma_factor_left_out(h as int, y as int, g as int);
    }
}

/// Bytes below two to the power 53 are exactly so many mebibytes.
pub proof fn lemma_mebibytes_are_exact(bytes: nat)
    requires
        bytes < 0x20_0000_0000_0000,
    ensures
        Quantity::of(bytes).divided(1_048_576).is_finite(),
        !Quantity::of(bytes).divided(1_048_576).minus(),
        Quantity::of(bytes).divided(1_048_576).over() * 1_048_576 == bytes * pow2(1074),
{
    let (g, h) = (pow2(1074), pow2(1054));
    let b = Quantity::of(bytes);
    lemma_integers_are_exact(bytes);
    lemma_pow2_pos(1074);
    lemma_pow2_adds(20, 1054);
    lemma2_to64();
    let k: nat = 1_048_576;
    assert((bytes * g) * g == (g * k) * (bytes * h)) by (nonlinear_arith)
        requires
            g == k * h,
    ;
    lemma_nearest_is_exact(bytes * g, g * k, bytes, 1054);
    assert((bytes * h) * k == bytes * g) by (nonlinear_arith)
        requires
            g == k * h,
    ;
}

/// Bytes in mebibytes are off by at most two roundings.
pub proof fn lemma_mebibytes_are_near(bytes: u64)
    ensures
        ({
            let q = Quantity::of(bytes as nat).divided(1_048_576);
            let y = bytes as nat * pow2(1074);
            &&& q.is_finite()
            &&& !q.minus()
            &&& 0x20_0000_0000_0000 * (q.over() * 1_048_576) <= 0x20_0000_0000_0000 * y + 3 * y
                + 0x20_0000_0000_0000 * 1_048_576
            &&& 0x20_0000_0000_0000 * y <= 0x20_0000_0000_0000 * (q.over() * 1_048_576) + 3 * y
                + 0x20_0000_0000_0000 * 1_048_576
        }),
{
    let b = Quantity::of(bytes as nat);
    let g = pow2(1074);
    let y = bytes as nat * g;
    lemma_pow2_pos(1074);
    lemma_nearest_is_near(bytes as nat, 1);
    lemma2_to64();
    lemma_pow2_adds(64, 1074);
    lemma_pow2_strictly_increases(1138, 2097);
    assert(y < pow2(1138)) by (nonlinear_arith)
        requires
            y == bytes as nat * g,
            bytes < pow2(64),
            pow2(1138) == pow2(64) * g,
            g > 0,
    ;
    assert(1 * pow2(2097) == pow2(2097));
    assert(b.is_finite());
    assert(b.over() * 1 == b.over());
    lemma_share_is_near(b, 1_048_576);
}

/// The bits of an amount are its sign, eleven digits of exponent and 52 of fraction. The highest
/// exponent stands for infinity and for what is no number, the lowest for amounts without a leading
/// one, and any other for the fraction behind a leading one, on the scale of the exponent.
pub proof fn lemma_bits_are_sign_exponent_fraction(q: Quantity)
    ensures
        ({
            let exponent = (q.bits % 0x8000_0000_0000_0000) / 0x10_0000_0000_0000;
            let fraction = q.bits % 0x10_0000_0000_0000;
            &&& q.minus() <==> q.bits >= 0x8000_0000_0000_0000
            &&& q.is_finite() <==> exponent < 2047
            &&& q.is_infinite() <==> exponent == 2047 && fraction == 0
            &&& q.is_nan() <==> exponent == 2047 && fraction > 0
            &&& exponent == 0 ==> q.over() == fraction
            &&& 0 < exponent < 2047 ==> q.over() == (0x10_0000_0000_0000 + fraction) * pow2(
                (exponent - 1) as nat,
            )
        }),
{
    let exponent = (q.bits % 0x8000_0000_0000_0000) / 0x10_0000_0000_0000;
    let fraction = q.bits % 0x10_0000_0000_0000;
    let magnitude = q.bits % 0x8000_0000_0000_0000;
    assert(magnitude == exponent * 0x10_0000_0000_0000 + fraction);
    lemma2_to64();
    if exponent == 0 {
        assert(q.level() == 0);
        assert(q.steps() == fraction);
        assert(fraction as nat * 1 == fraction);
    } else {
        assert(q.level() == exponent - 1);
        assert(q.steps() == 0x10_0000_0000_0000 + fraction);
    }
}

/// Infinity exceeds every finite amount, and what is no number exceeds nothing and is exceeded by
/// nothing.
pub proof fn lemma_order_of_odd_amounts(a: Quantity, b: Quantity)
    ensures
        a.is_nan() || b.is_nan() ==> !a.exceeds(b),
        a.is_infinite() && !a.minus() && (b.is_finite() || b.is_infinite() && b.minus())
            ==> a.exceeds(b) && !b.exceeds(a),
        a.is_infinite() && a.minus() && b.is_finite() ==> b.exceeds(a) && !a.exceeds(b),
        a.is_infinite() && b.is_infinite() && a.minus() == b.minus() ==> !a.exceeds(b),
{
}

/// What is computed from amounts that are not finite: no number stays no number, infinity stays
/// infinity with its sign, infinity over infinity and nothing over nothing are no number, and
/// anything else over nothing is infinite and over infinity nothing.
pub proof fn lemma_results_of_odd_amounts(a: Quantity, b: Quantity, k: nat)
    ensures
        a.is_nan() ==> a.times(k).is_nan() && a.divided(k).is_nan() && a.sum(b).is_nan()
            && a.quotient(b).is_nan(),
        b.is_nan() ==> a.sum(b).is_nan() && a.quotient(b).is_nan(),
        a.is_infinite() ==> {
            &&& a.times(k).is_infinite() && a.times(k).minus() == a.minus()
            &&& a.divided(k).is_infinite() && a.divided(k).minus() == a.minus()
        },
        a.is_infinite() && !b.is_nan() ==> a.sum(b).is_infinite() && b.sum(a).is_infinite(),
        a.is_infinite() && b.is_infinite() ==> a.quotient(b).is_nan(),
        a.is_infinite() && b.is_finite() ==> a.quotient(b).is_infinite() && a.quotient(b).minus()
            == a.minus(),
        a.is_finite() && b.is_infinite() ==> a.quotient(b).magnitude() == 0 && a.quotient(
            b,
        ).minus() == a.minus(),
        a.magnitude() == 0 && b.magnitude() == 0 ==> a.quotient(b).is_nan(),
        a.is_finite() && a.magnitude() > 0 && b.magnitude() == 0 ==> a.quotient(b).is_infinite()
            && a.quotient(b).minus() == a.minus(),
{
}

} // verus!

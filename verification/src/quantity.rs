//! Amounts as binary floating-point numbers of 64 bits: seconds, mebibytes and percentages.
//!
//! An amount is kept as its bits and taken at its exact value. Whatever is computed is the number
//! nearest to the exact result, and on a tie the one with the even last digit.

use vstd::arithmetic::power2::{
    lemma2_to64, lemma2_to64_rest, lemma_pow2_adds, lemma_pow2_pos, lemma_pow2_strictly_increases,
    lemma_pow2_unfold, pow2,
};
use vstd::prelude::*;
use vstd::string::StringExecFns;

use crate::natural::Natural;
use crate::text::{decimal, padded, pow10, push_decimal, push_natural, push_padded};

verus! {

/// Bytes in one mebibyte.
pub const BYTES_PER_MIB: u32 = 1_048_576;

/// Nanoseconds in one second.
pub const NANOS_PER_SECOND: u32 = 1_000_000_000;

/// The most decimal places that [`Quantity::to_fixed`] writes.
pub const MAX_PLACES: u32 = 19;

/// The bits from which on an amount carries a minus sign.
pub const SIGN: u64 = 0x8000_0000_0000_0000;

/// The bits of infinity. Whatever lies above, below the sign, is no number.
pub const INFINITY: u64 = 0x7ff0_0000_0000_0000;

/// The bits of infinity with a minus sign.
pub const MINUS_INFINITY: u64 = 0xfff0_0000_0000_0000;

/// The bits of what is no number.
pub const NOT_A_NUMBER: u64 = 0x7ff8_0000_0000_0000;

/// How far apart the bits of one level and the next are.
pub const LEVEL: u64 = 0x10_0000_0000_0000;

/// All finite amounts are multiples of two to the power minus this.
pub const GRAIN: u32 = 1074;

/// The first level on which there are no finite amounts.
pub const LEVELS: u32 = 2046;

/// An amount.
#[derive(Debug, Clone, Copy)]
pub struct Quantity {
    pub bits: u64,
}

/// The integer nearest to `a / b`; of two that are as near, the even one.
pub open spec fn round_half_even(a: nat, b: nat) -> nat {
    if 2 * (a % b) < b || (2 * (a % b) == b && (a / b) % 2 == 0) {
        a / b
    } else {
        a / b + 1
    }
}

/// `magnitude` over `10^places`, written with exactly `places` digits behind the point.
pub open spec fn point_notation(magnitude: nat, places: nat) -> Seq<char> {
    if places == 0 {
        decimal(magnitude)
    } else {
        decimal(magnitude / pow10(places)).push('.') + padded(magnitude % pow10(places), places)
    }
}

/// The level of `n / d`, from `level` on: the first on which 53 binary digits reach its size.
/// On level `t` amounts are `2^t` grains apart.
pub open spec fn level_from(n: nat, d: nat, level: nat) -> nat
    decreases LEVELS - level,
{
    if level >= LEVELS || n * pow2(GRAIN as nat) < d * pow2(53 + level) {
        level
    } else {
        level_from(n, d, level + 1)
    }
}

/// The bits of the amount nearest to `n / d`; infinity where that is too large.
pub open spec fn nearest_bits(n: nat, d: nat) -> nat {
    let level = level_from(n, d, 0);
    if level >= LEVELS {
        INFINITY as nat
    } else {
        level * LEVEL as nat + round_half_even(n * pow2(GRAIN as nat), d * pow2(level))
    }
}

/// The amount nearest to `n / d`.
pub open spec fn nearest(n: nat, d: nat) -> Quantity {
    Quantity { bits: nearest_bits(n, d) as u64 }
}

/// `q`, or `q` with its sign turned.
pub open spec fn with_sign(q: Quantity, negative: bool) -> Quantity {
    if negative {
        q.turned()
    } else {
        q
    }
}

/// The amount nearest to `gains` less `losses`, over `d`.
pub open spec fn nearest_net(gains: nat, losses: nat, d: nat) -> Quantity {
    if gains >= losses {
        nearest((gains - losses) as nat, d)
    } else {
        nearest((losses - gains) as nat, d).turned()
    }
}

impl Quantity {
    /// Zero.
    pub open spec fn zero() -> Quantity {
        Quantity { bits: 0 }
    }

    /// Whether the amount carries a minus sign. Zero may.
    pub open spec fn minus(self) -> bool {
        self.bits >= SIGN
    }

    /// The bits without the sign.
    pub open spec fn magnitude(self) -> nat {
        (self.bits % SIGN) as nat
    }

    /// The amount is a number, and not infinite.
    pub open spec fn is_finite(self) -> bool {
        self.magnitude() < INFINITY
    }

    /// The amount is infinite.
    pub open spec fn is_infinite(self) -> bool {
        self.magnitude() == INFINITY
    }

    /// The amount is no number.
    pub open spec fn is_nan(self) -> bool {
        self.magnitude() > INFINITY
    }

    /// The level of a finite amount.
    pub open spec fn level(self) -> nat {
        if self.magnitude() < LEVEL {
            0
        } else {
            (self.magnitude() / LEVEL as nat - 1) as nat
        }
    }

    /// How many steps of its level a finite amount is.
    pub open spec fn steps(self) -> nat {
        (self.magnitude() - self.level() * LEVEL) as nat
    }

    /// How many grains a finite amount is, without its sign: the numerator of its value.
    pub open spec fn over(self) -> nat {
        self.steps() * pow2(self.level())
    }

    /// How many grains make one: the denominator of the value of a finite amount.
    pub open spec fn under(self) -> nat {
        pow2(GRAIN as nat)
    }

    /// What amounts that are numbers are ordered by.
    pub open spec fn rank(self) -> int {
        if self.minus() {
            -self.magnitude()
        } else {
            self.magnitude() as int
        }
    }

    /// The amount is larger than `other`, and both are numbers.
    pub open spec fn exceeds(self, other: Quantity) -> bool {
        !self.is_nan() && !other.is_nan() && self.rank() > other.rank()
    }

    /// The amount to `places` decimal places, the nearest and on a tie the even one, behind a
    /// minus sign where it carries one.
    pub open spec fn fixed(self, places: nat) -> Seq<char> {
        if self.is_nan() {
            "NaN"@
        } else {
            let digits = if self.is_infinite() {
                "inf"@
            } else {
                point_notation(
                    round_half_even(self.over() * pow10(places), self.under()),
                    places,
                )
            };
            if self.minus() {
                "-"@ + digits
            } else {
                digits
            }
        }
    }

    /// The whole units of the amount: none where it is negative or no number, and at most the
    /// largest `u64`.
    pub open spec fn whole(self) -> u64 {
        if self.is_nan() || self.minus() {
            0
        } else if self.is_infinite() || self.over() / self.under() > u64::MAX {
            u64::MAX
        } else {
            (self.over() / self.under()) as u64
        }
    }

    /// The amount nearest to the integer `n`.
    pub open spec fn of(n: nat) -> Quantity {
        nearest(n, 1)
    }

    /// The sum of two amounts that are not negative.
    pub open spec fn sum(self, other: Quantity) -> Quantity {
        if self.is_nan() || other.is_nan() {
            Quantity { bits: NOT_A_NUMBER }
        } else if self.is_infinite() || other.is_infinite() {
            Quantity { bits: INFINITY }
        } else {
            nearest(self.over() + other.over(), self.under())
        }
    }

    /// The product of an amount and the integer `k` above zero.
    pub open spec fn times(self, k: nat) -> Quantity {
        if self.is_nan() {
            Quantity { bits: NOT_A_NUMBER }
        } else if self.is_infinite() {
            with_sign(Quantity { bits: INFINITY }, self.minus())
        } else {
            with_sign(nearest(self.over() * k, self.under()), self.minus())
        }
    }

    /// The quotient of an amount and the integer `k` above zero.
    pub open spec fn divided(self, k: nat) -> Quantity {
        if self.is_nan() {
            Quantity { bits: NOT_A_NUMBER }
        } else if self.is_infinite() {
            with_sign(Quantity { bits: INFINITY }, self.minus())
        } else {
            with_sign(nearest(self.over(), self.under() * k), self.minus())
        }
    }

    /// The quotient of an amount and one without a minus sign.
    pub open spec fn quotient(self, other: Quantity) -> Quantity {
        if self.is_nan() || other.is_nan() || (self.is_infinite() && other.is_infinite()) || (
        self.magnitude() == 0 && other.magnitude() == 0) {
            Quantity { bits: NOT_A_NUMBER }
        } else if self.is_infinite() || other.magnitude() == 0 {
            with_sign(Quantity { bits: INFINITY }, self.minus())
        } else if other.is_infinite() {
            with_sign(Quantity::zero(), self.minus())
        } else {
            with_sign(nearest(self.over(), other.over()), self.minus())
        }
    }

    /// The amount with these bits.
    pub fn from_bits(bits: u64) -> (q: Quantity)
        ensures
            q.bits == bits,
    {
        Quantity { bits }
    }

    /// The bits of the amount.
    pub fn to_bits(&self) -> (r: u64)
        ensures
            r == self.bits,
    {
        self.bits
    }

    /// Whether the amount is no number.
    pub fn no_number(&self) -> (r: bool)
        ensures
            r == self.is_nan(),
    {
        self.bits % SIGN > INFINITY
    }

    /// Whether the amount is infinite.
    pub fn infinite(&self) -> (r: bool)
        ensures
            r == self.is_infinite(),
    {
        self.bits % SIGN == INFINITY
    }

    /// Whether the amount carries a minus sign.
    pub fn is_negative(&self) -> (r: bool)
        ensures
            r == self.minus(),
    {
        self.bits >= SIGN
    }

    /// The amount, or the amount with its sign turned.
    pub fn signed(self, negative: bool) -> (q: Quantity)
        ensures
            q == with_sign(self, negative),
    {
        if negative {
            self.negated()
        } else {
            self
        }
    }

    /// The level of a finite amount, and its steps on it.
    fn split(&self) -> (r: (u32, u64))
        requires
            self.is_finite(),
        ensures
            r.0 == self.level(),
            r.1 == self.steps(),
            r.0 < LEVELS,
            r.1 < 2 * LEVEL,
            r.0 > 0 ==> r.1 >= LEVEL,
    {
        let magnitude: u64 = self.bits % SIGN;
        if magnitude < LEVEL {
            (0, magnitude)
        } else {
            let level: u64 = magnitude / LEVEL - 1;
            (level as u32, magnitude - level * LEVEL)
        }
    }

    /// The grains of a finite amount.
    pub fn grains(&self) -> (r: Natural)
        requires
            self.is_finite(),
        ensures
            r@ == self.over(),
    {
        let (level, steps): (u32, u64) = self.split();
        let mut grains: Natural = Natural::from_u64(steps);
        grains.shift(level);
        grains
    }

    /// The amount nearest to the integer `n`.
    pub fn of_u64(n: u64) -> (q: Quantity)
        ensures
            q == Quantity::of(n as nat),
    {
        nearest_to(&Natural::from_u64(n), &Natural::from_u64(1))
    }

    /// Whether the amount is larger than `other`. What is no number is neither larger nor smaller.
    pub fn is_above(&self, other: &Quantity) -> (r: bool)
        ensures
            r == self.exceeds(*other),
    {
        if self.no_number() || other.no_number() {
            return false;
        }
        let a: u64 = self.bits % SIGN;
        let b: u64 = other.bits % SIGN;
        if self.bits >= SIGN {
            other.bits >= SIGN && a < b
        } else if other.bits >= SIGN {
            a > 0 || b > 0
        } else {
            a > b
        }
    }

    /// The amount with its sign turned.
    pub open spec fn turned(self) -> Quantity {
        Quantity {
            bits: if self.minus() {
                (self.bits - SIGN) as u64
            } else {
                (self.bits + SIGN) as u64
            },
        }
    }

    /// Turns the sign of the amount.
    pub fn negated(self) -> (q: Quantity)
        ensures
            q == self.turned(),
    {
        if self.bits >= SIGN {
            Quantity { bits: self.bits - SIGN }
        } else {
            Quantity { bits: self.bits + SIGN }
        }
    }

    /// Adds two amounts that are not negative.
    pub fn add_to(&self, other: &Quantity) -> (q: Quantity)
        requires
            !self.minus(),
            !other.minus(),
        ensures
            q == self.sum(*other),
    {
        if self.no_number() || other.no_number() {
            return Quantity { bits: NOT_A_NUMBER };
        }
        if self.infinite() || other.infinite() {
            return Quantity { bits: INFINITY };
        }
        let mut grains: Natural = self.grains();
        grains.plus(&other.grains());
        in_grains(&grains)
    }

    /// Multiplies an amount by an integer above zero.
    pub fn multiplied_by(&self, k: u32) -> (q: Quantity)
        requires
            k > 0,
        ensures
            q == self.times(k as nat),
    {
        if self.no_number() {
            return Quantity { bits: NOT_A_NUMBER };
        }
        if self.infinite() {
            return Quantity { bits: INFINITY }.signed(self.is_negative());
        }
        let mut grains: Natural = self.grains();
        grains.times_plus(k, 0);
        in_grains(&grains).signed(self.is_negative())
    }

    /// Divides an amount by an integer above zero.
    pub fn divided_by(&self, k: u32) -> (q: Quantity)
        requires
            k > 0,
        ensures
            q == self.divided(k as nat),
    {
        if self.no_number() {
            return Quantity { bits: NOT_A_NUMBER };
        }
        if self.infinite() {
            return Quantity { bits: INFINITY }.signed(self.is_negative());
        }
        let mut parts: Natural = one_in_grains();
        parts.times_plus(k, 0);
        proof {
            lemma_pow2_pos(GRAIN as nat);
            let p = pow2(GRAIN as nat);
            assert(p * k > 0) by (nonlinear_arith)
                requires
                    p > 0,
                    k > 0,
            ;
        }
        nearest_to(&self.grains(), &parts).signed(self.is_negative())
    }

    /// Divides an amount by one without a minus sign.
    pub fn ratio_to(&self, other: &Quantity) -> (q: Quantity)
        requires
            !other.minus(),
        ensures
            q == self.quotient(*other),
    {
        if self.no_number() || other.no_number() {
            return Quantity { bits: NOT_A_NUMBER };
        }
        let negative: bool = self.is_negative();
        if self.infinite() {
            if other.infinite() {
                return Quantity { bits: NOT_A_NUMBER };
            }
            return Quantity { bits: INFINITY }.signed(negative);
        }
        if other.bits == 0 {
            if self.bits % SIGN == 0 {
                return Quantity { bits: NOT_A_NUMBER };
            }
            return Quantity { bits: INFINITY }.signed(negative);
        }
        if other.infinite() {
            return Quantity { bits: 0 }.signed(negative);
        }
        proof {
            lemma_bits_order_values(Quantity::zero(), *other);
        }
        nearest_to(&self.grains(), &other.grains()).signed(negative)
    }

    /// `bytes` in mebibytes.
    pub fn mebibytes(bytes: u64) -> (q: Quantity)
        ensures
            q == Quantity::of(bytes as nat).divided(BYTES_PER_MIB as nat),
    {
        Quantity::of_u64(bytes).divided_by(BYTES_PER_MIB)
    }

    /// Writes the amount with exactly `places` digits behind the point, rounded to nearest and
    /// on a tie to even.
    pub fn to_fixed(&self, places: u32) -> (out: String)
        requires
            places <= MAX_PLACES,
        ensures
            out@ == self.fixed(places as nat),
    {
        if self.no_number() {
            return "NaN".to_owned();
        }
        let mut out: String = String::new();
        if self.bits >= SIGN {
            out.append("-");
        }
        let ghost sign: Seq<char> = out@;
        if self.infinite() {
            out.append("inf");
            assert(out@ =~= self.fixed(places as nat));
            return out;
        }
        let (level, steps): (u32, u64) = self.split();
        let power: u64 = power_of_ten(places);
        let ghost magnitude: nat = round_half_even(
            self.over() * pow10(places as nat),
            self.under(),
        );
        if level >= GRAIN {
            let mut whole: Natural = Natural::from_u64(steps);
            whole.shift(level - GRAIN);
            proof {
                lemma_whole_magnitude(steps as nat, level as nat, power as nat);
                vstd::arithmetic::div_mod::lemma_fundamental_div_mod_converse(
                    magnitude as int,
                    power as int,
                    whole@ as int,
                    0,
                );
            }
            push_natural(&mut out, &whole);
            if places > 0 {
                out.append(".");
                push_padded(&mut out, 0, places);
            }
            proof {
                reveal_strlit(".");
                if places == 0 {
                    assert(magnitude / 1 == magnitude);
                }
                assert(out@ =~= sign + point_notation(magnitude, places as nat));
                assert(out@ =~= self.fixed(places as nat));
            }
            return out;
        }
        assert(steps * power < 0x20_0000_0000_0000 * 10_000_000_000_000_000_001) by (nonlinear_arith)
            requires
                steps < 0x20_0000_0000_0000,
                power <= 10_000_000_000_000_000_000,
        ;
        let scaled: u128 = steps as u128 * power as u128;
        let shift: u32 = GRAIN - level;
        let rounded: u128 = rounded_shift(scaled, shift);
        proof {
            let (m, k, p, q) = (
                steps as nat,
                power as nat,
                pow2(level as nat),
                pow2(shift as nat),
            );
            lemma_pow2_adds(shift as nat, level as nat);
            lemma_pow2_pos(shift as nat);
            lemma_pow2_pos(level as nat);
            assert((m * p) * k == (m * k) * p) by (nonlinear_arith);
            lemma_common_factor(scaled as nat, q, p);
            assert(rounded == magnitude);
        }
        push_decimal(&mut out, rounded / power as u128);
        if places > 0 {
            out.append(".");
            push_padded(&mut out, rounded % power as u128, places);
        }
        proof {
            reveal_strlit(".");
            if places == 0 {
                assert(magnitude / 1 == magnitude);
            }
            assert(out@ =~= sign + point_notation(magnitude, places as nat));
            assert(out@ =~= self.fixed(places as nat));
        }
        out
    }

    /// The whole units of the amount: none where it is negative or no number, and at most the
    /// largest `u64`.
    pub fn whole_units(&self) -> (r: u64)
        ensures
            r == self.whole(),
    {
        if self.no_number() || self.bits >= SIGN {
            return 0;
        }
        if self.infinite() {
            return u64::MAX;
        }
        let (level, steps): (u32, u64) = self.split();
        let ghost units: nat = self.over() / self.under();
        if level >= GRAIN {
            let up: u32 = level - GRAIN;
            proof {
                lemma_whole_units(steps as nat, level as nat);
                lemma2_to64();
                let (m, p) = (steps as nat, pow2(up as nat));
                if up > 11 {
                    if up > 12 {
                        lemma_pow2_strictly_increases(12, up as nat);
                    }
                    assert(m * p >= 0x10_0000_0000_0000 * 4096) by (nonlinear_arith)
                        requires
                            m >= 0x10_0000_0000_0000,
                            p >= 4096,
                    ;
                } else {
                    if up < 11 {
                        lemma_pow2_strictly_increases(up as nat, 11);
                    }
                    assert(m * p <= 0x1f_ffff_ffff_ffff * 2048) by (nonlinear_arith)
                        requires
                            m <= 0x1f_ffff_ffff_ffff,
                            p <= 2048,
                    ;
                }
            }
            if up > 11 {
                return u64::MAX;
            }
            return steps * power_of_two(up) as u64;
        }
        let shift: u32 = GRAIN - level;
        proof {
            let (m, p, q) = (steps as nat, pow2(level as nat), pow2(shift as nat));
            lemma_pow2_adds(shift as nat, level as nat);
            lemma_pow2_pos(shift as nat);
            lemma_pow2_pos(level as nat);
            lemma_common_factor(m, q, p);
            assert(units == m / q);
            lemma2_to64_rest();
            if shift > 53 {
                lemma_pow2_strictly_increases(53, shift as nat);
            }
            if shift >= 53 {
                vstd::arithmetic::div_mod::lemma_basic_div(m as int, q as int);
            } else {
                vstd::arithmetic::div_mod::lemma_div_is_ordered_by_denominator(
                    m as int,
                    1,
                    q as int,
                );
                assert(m / 1 == m);
            }
        }
        if shift >= 53 {
            return 0;
        }
        (steps as u128 / power_of_two(shift)) as u64
    }
}

impl Default for Quantity {
    /// Zero.
    fn default() -> (q: Quantity)
        ensures
            q == Quantity::zero(),
    {
        Quantity { bits: 0 }
    }
}

/// The number of grains in one.
fn one_in_grains() -> (r: Natural)
    ensures
        r@ == pow2(GRAIN as nat),
{
    let mut one: Natural = Natural::from_u64(1);
    one.shift(GRAIN);
    one
}

/// The amount nearest to a number of grains.
pub fn in_grains(grains: &Natural) -> (q: Quantity)
    ensures
        q == nearest(grains@, pow2(GRAIN as nat)),
{
    proof {
        lemma_pow2_pos(GRAIN as nat);
    }
    nearest_to(grains, &one_in_grains())
}

/// The amount nearest to a number of grains less another.
pub fn net_in_grains(gains: &Natural, losses: &Natural) -> (q: Quantity)
    ensures
        q == nearest_net(gains@, losses@, pow2(GRAIN as nat)),
{
    match gains.minus(losses) {
        Some(more) => in_grains(&more),
        None => match losses.minus(gains) {
            Some(less) => in_grains(&less).negated(),
            None => Quantity { bits: 0 },
        },
    }
}

/// Two to the power `k`.
fn power_of_two(k: u32) -> (p: u128)
    requires
        k < 128,
    ensures
        p == pow2(k as nat),
        p > 0,
{
    let mut p: u128 = 1;
    let mut i: u32 = 0;
    proof {
        lemma2_to64();
        lemma_pow2_adds(64, 63);
        lemma2_to64_rest();
    }
    while i < k
        invariant
            i <= k < 128,
            p == pow2(i as nat),
            p > 0,
            pow2(127) == 0x8000_0000_0000_0000_0000_0000_0000_0000,
        decreases k - i,
    {
        proof {
            lemma_pow2_unfold((i + 1) as nat);
            if i + 1 < 127 {
                lemma_pow2_strictly_increases((i + 1) as nat, 127);
            }
        }
        p = 2 * p;
        i = i + 1;
    }
    p
}

/// The integer nearest to `x` over two to the power `shift`, and on a tie the even one.
fn rounded_shift(x: u128, shift: u32) -> (r: u128)
    requires
        x < 0x80_0000_0000_0000_0000_0000_0000_0000,
    ensures
        r == round_half_even(x as nat, pow2(shift as nat)),
{
    proof {
        lemma2_to64();
        lemma2_to64_rest();
        lemma_pow2_adds(64, 56);
        lemma_pow2_pos(shift as nat);
    }
    if shift >= 120 {
        proof {
            if shift > 120 {
                lemma_pow2_strictly_increases(120, shift as nat);
            }
            vstd::arithmetic::div_mod::lemma_basic_div(x as int, pow2(shift as nat) as int);
            vstd::arithmetic::div_mod::lemma_small_mod(x as nat, pow2(shift as nat));
        }
        return 0;
    }
    let step: u128 = power_of_two(shift);
    let quotient: u128 = x / step;
    let rest: u128 = x % step;
    proof {
        lemma_pow2_strictly_increases(shift as nat, 120);
        assert(quotient <= x) by (nonlinear_arith)
            requires
                quotient == x / step,
                step > 0,
        ;
    }
    if 2 * rest > step || (2 * rest == step && quotient % 2 == 1) {
        quotient + 1
    } else {
        quotient
    }
}

/// A whole amount is written as itself.
proof fn lemma_whole_magnitude(m: nat, level: nat, k: nat)
    requires
        level >= GRAIN,
    ensures
        round_half_even((m * pow2(level)) * k, pow2(GRAIN as nat)) == (m * pow2(
            (level - GRAIN) as nat,
        )) * k,
{
    let up = (level - GRAIN) as nat;
    let (p, g) = (pow2(up), pow2(GRAIN as nat));
    lemma_pow2_pos(GRAIN as nat);
    lemma_pow2_adds(up, GRAIN as nat);
    let whole = (m * p) * k;
    assert((m * (p * g)) * k == whole * g) by (nonlinear_arith)
        requires
            whole == (m * p) * k,
    ;
    assert(1 * g == g);
    lemma_common_factor(whole, 1, g);
    assert(whole % 1 == 0 && whole / 1 == whole);
}

/// The whole units of a whole amount.
proof fn lemma_whole_units(m: nat, level: nat)
    requires
        level >= GRAIN,
    ensures
        (m * pow2(level)) / pow2(GRAIN as nat) == m * pow2((level - GRAIN) as nat),
{
    let up = (level - GRAIN) as nat;
    let (p, g) = (pow2(up), pow2(GRAIN as nat));
    lemma_pow2_pos(GRAIN as nat);
    lemma_pow2_adds(up, GRAIN as nat);
    assert(m * (p * g) == (m * p) * g) by (nonlinear_arith);
    vstd::arithmetic::div_mod::lemma_div_by_multiple((m * p) as int, g as int);
}

/// Ten to the power `k`.
fn power_of_ten(k: u32) -> (p: u64)
    requires
        k <= MAX_PLACES,
    ensures
        p == pow10(k as nat),
        0 < p <= 10_000_000_000_000_000_000,
    decreases k,
{
    reveal_with_fuel(pow10, 20);
    if k == 0 {
        1
    } else {
        let below: u64 = power_of_ten(k - 1);
        proof {
            lemma_pow10_monotonic((k - 1) as nat, 18);
        }
        10 * below
    }
}

/// A larger exponent gives a larger power.
pub proof fn lemma_pow10_monotonic(a: nat, b: nat)
    requires
        a <= b,
    ensures
        0 < pow10(a) <= pow10(b),
    decreases b,
{
    if b > a {
        lemma_pow10_monotonic(a, (b - 1) as nat);
    } else if a > 0 {
        lemma_pow10_monotonic((a - 1) as nat, (a - 1) as nat);
    }
}

/// A common factor does not change quotient and nearest integer.
pub proof fn lemma_common_factor(a: nat, b: nat, c: nat)
    requires
        b > 0,
        c > 0,
    ensures
        b * c > 0,
        (a * c) / (b * c) == a / b,
        (a * c) % (b * c) == (a % b) * c,
        round_half_even(a * c, b * c) == round_half_even(a, b),
{
    let q = a / b;
    let r = a % b;
    vstd::arithmetic::div_mod::lemma_fundamental_div_mod(a as int, b as int);
    assert(b * c > 0) by (nonlinear_arith)
        requires
            b > 0,
            c > 0,
    ;
    assert(a * c == (b * c) * q + r * c) by (nonlinear_arith)
        requires
            a == b * q + r,
    ;
    assert(0 <= r * c < b * c) by (nonlinear_arith)
        requires
            0 <= r < b,
            c > 0,
    ;
    assert((b * c) * q == q * (b * c)) by (nonlinear_arith);
    vstd::arithmetic::div_mod::lemma_fundamental_div_mod_converse(
        (a * c) as int,
        (b * c) as int,
        q as int,
        (r * c) as int,
    );
    assert((2 * (r * c) < b * c) == (2 * r < b)) by (nonlinear_arith)
        requires
            c > 0,
    ;
    assert((2 * (r * c) == b * c) == (2 * r == b)) by (nonlinear_arith)
        requires
            c > 0,
    ;
}

/// A level that is too low is passed over.
proof fn lemma_level_passed(n: nat, d: nat, level: nat, k: nat)
    requires
        level + k <= LEVELS,
        n * pow2(GRAIN as nat) >= d * pow2(53 + level + k),
    ensures
        level_from(n, d, level) == level_from(n, d, level + k),
    decreases k,
{
    if k > 0 {
        lemma_pow2_strictly_increases(53 + level, 53 + level + k);
        assert(d * pow2(53 + level) <= d * pow2(53 + level + k)) by (nonlinear_arith)
            requires
                pow2(53 + level) <= pow2(53 + level + k),
        ;
        assert(53 + level + k == 53 + (level + 1) + (k - 1));
        lemma_level_passed(n, d, level + 1, (k - 1) as nat);
    }
}

/// The nearest integer is at most one above the quotient.
proof fn lemma_round_bound(a: nat, b: nat, top: nat)
    requires
        b > 0,
        a < b * top,
    ensures
        round_half_even(a, b) <= top,
        a / b < top,
{
    vstd::arithmetic::div_mod::lemma_fundamental_div_mod(a as int, b as int);
    let q = a / b;
    let r = a % b;
    assert(q < top) by (nonlinear_arith)
        requires
            a == b * q + r,
            a < b * top,
            r >= 0,
            b > 0,
    ;
}

/// Finds the amount nearest to `n / d`.
pub fn nearest_to(n: &Natural, d: &Natural) -> (q: Quantity)
    requires
        d@ > 0,
    ensures
        q == nearest(n@, d@),
{
    let mut x: Natural = n.copy();
    x.shift(GRAIN);
    let mut y: Natural = d.copy();
    y.shift(53);
    let mut level: u32 = 0;
    let ghost grains: nat = n@ * pow2(GRAIN as nat);
    // Steps of several levels at once, as long as that is not too far.
    loop
        invariant
            level <= LEVELS,
            x@ == grains == n@ * pow2(GRAIN as nat),
            y@ == d@ * pow2((53 + level) as nat),
            level_from(n@, d@, 0) == level_from(n@, d@, level as nat),
        decreases LEVELS - level,
    {
        if level + 30 > LEVELS {
            break;
        }
        let mut further: Natural = y.copy();
        further.times_plus(0x4000_0000, 0);
        proof {
            lemma2_to64();
            lemma_pow2_adds((53 + level) as nat, 30);
            let p = pow2((53 + level) as nat);
            assert((d@ * p) * 0x4000_0000 == d@ * (p * 0x4000_0000)) by (nonlinear_arith);
        }
        if x.minus(&further).is_none() {
            break;
        }
        proof {
            assert(53 + level as nat + 30 == (53 + level + 30) as nat);
            lemma_level_passed(n@, d@, level as nat, 30);
        }
        y = further;
        level = level + 30;
    }
    while level < LEVELS && x.minus(&y).is_some()
        invariant
            level <= LEVELS,
            x@ == grains == n@ * pow2(GRAIN as nat),
            y@ == d@ * pow2((53 + level) as nat),
            level_from(n@, d@, 0) == level_from(n@, d@, level as nat),
        decreases LEVELS - level,
    {
        y.times_plus(2, 0);
        proof {
            lemma_pow2_unfold((53 + level + 1) as nat);
            let p = pow2((53 + level) as nat);
            assert((d@ * p) * 2 == d@ * (2 * p)) by (nonlinear_arith);
        }
        level = level + 1;
    }
    if level >= LEVELS {
        return Quantity { bits: INFINITY };
    }
    let ghost step: nat = d@ * pow2(level as nat);
    proof {
        lemma_pow2_pos(level as nat);
        let p = pow2(level as nat);
        assert(step > 0) by (nonlinear_arith)
            requires
                step == d@ * p,
                d@ > 0,
                p > 0,
        ;
        lemma_pow2_adds(53, level as nat);
        lemma2_to64();
        assert(d@ * (pow2(53) * p) == (d@ * p) * pow2(53)) by (nonlinear_arith);
        assert(y@ == step * pow2(53));
    }
    let mut q: u64 = 0;
    let mut rest: Natural = x;
    let mut i: u32 = 0;
    proof {
        assert(0 * y@ == 0);
        assert(grains * 1 == grains);
    }
    while i < 53
        invariant
            i <= 53,
            y@ > 0,
            rest@ < y@,
            q < pow2(i as nat),
            q as nat * y@ + rest@ == grains * pow2(i as nat),
        decreases 53 - i,
    {
        let ghost (before, left) = (q as nat, rest@);
        rest.times_plus(2, 0);
        proof {
            lemma2_to64_rest();
            lemma_pow2_unfold((i + 1) as nat);
            lemma_pow2_strictly_increases(i as nat, 53);
            let p = pow2(i as nat);
            assert(grains * (2 * p) == 2 * (grains * p)) by (nonlinear_arith);
            assert((2 * before) * y@ == 2 * (before * y@)) by (nonlinear_arith);
            assert((2 * before + 1) * y@ == 2 * (before * y@) + y@) by (nonlinear_arith);
        }
        q = 2 * q;
        if let Some(less) = rest.minus(&y) {
            rest = less;
            q = q + 1;
        }
        i = i + 1;
    }
    proof {
        lemma2_to64_rest();
        let quotient = q as nat;
        let left = (grains - quotient * step) as int;
        let p = pow2(53) as int;
        assert(quotient * (step * p) == (quotient * step) * p) by (nonlinear_arith);
        assert(rest@ == left * p) by (nonlinear_arith)
            requires
                (quotient * step) * p + rest@ == grains * p,
                left == grains - quotient * step,
        ;
        assert(0 <= left < step) by (nonlinear_arith)
            requires
                rest@ == left * p,
                0 <= rest@ < step * p,
                p > 0,
        ;
        vstd::arithmetic::div_mod::lemma_fundamental_div_mod_converse(
            grains as int,
            step as int,
            quotient as int,
            left,
        );
        assert((2 * rest@ < y@) == (2 * left < step)) by (nonlinear_arith)
            requires
                rest@ == left * p,
                y@ == step * p,
                p > 0,
        ;
        assert((2 * rest@ == y@) == (2 * left == step)) by (nonlinear_arith)
            requires
                rest@ == left * p,
                y@ == step * p,
                p > 0,
        ;
    }
    rest.times_plus(2, 0);
    let up: bool = match rest.minus(&y) {
        Some(beyond) => !beyond.is_zero() || q % 2 == 1,
        None => false,
    };
    let rounded: u64 = if up {
        q + 1
    } else {
        q
    };
    assert(rounded == round_half_even(grains, step));
    Quantity { bits: level as u64 * LEVEL + rounded }
}

/// What stands for a finite result fits in the bits below infinity, or is infinity.
pub proof fn lemma_nearest_fits(n: nat, d: nat)
    requires
        d > 0,
    ensures
        nearest_bits(n, d) <= INFINITY,
        nearest(n, d).bits == nearest_bits(n, d),
{
    let level = level_from(n, d, 0);
    lemma_level_found(n, d, 0);
    if level < LEVELS {
        let p = pow2(level);
        let step = d * p;
        lemma_pow2_pos(level);
        lemma2_to64_rest();
        lemma_pow2_adds(53, level);
        assert(step > 0) by (nonlinear_arith)
            requires
                step == d * p,
                d > 0,
                p > 0,
        ;
        assert(d * (pow2(53) * p) == step * pow2(53)) by (nonlinear_arith)
            requires
                step == d * p,
        ;
        lemma_round_bound(n * pow2(GRAIN as nat), step, pow2(53));
    }
}

/// The level that is found reaches the size, and the one below it does not.
pub proof fn lemma_level_found(n: nat, d: nat, level: nat)
    requires
        level <= LEVELS,
    ensures
        level <= level_from(n, d, level) <= LEVELS,
        level_from(n, d, level) < LEVELS ==> n * pow2(GRAIN as nat) < d * pow2(
            53 + level_from(n, d, level),
        ),
        level_from(n, d, level) > level ==> n * pow2(GRAIN as nat) >= d * pow2(
            (53 + level_from(n, d, level) - 1) as nat,
        ),
    decreases LEVELS - level,
{
    if level < LEVELS && n * pow2(GRAIN as nat) >= d * pow2(53 + level) {
        lemma_level_found(n, d, level + 1);
    }
}

/// A larger number has no smaller nearest integer.
proof fn lemma_round_monotonic(a: nat, b: nat, step: nat)
    requires
        step > 0,
        a <= b,
    ensures
        round_half_even(a, step) <= round_half_even(b, step),
{
    vstd::arithmetic::div_mod::lemma_fundamental_div_mod(a as int, step as int);
    vstd::arithmetic::div_mod::lemma_fundamental_div_mod(b as int, step as int);
    vstd::arithmetic::div_mod::lemma_div_is_ordered(a as int, b as int, step as int);
    let (q, r) = (a / step, b / step);
    if q < r {
    } else {
        assert(q == r);
        assert(step * q == step * r);
    }
}

/// What is less than half a grain is nearest to zero.
pub proof fn lemma_nearest_to_nothing(n: nat, d: nat)
    requires
        2 * (n * pow2(GRAIN as nat)) < d,
    ensures
        nearest(n, d) == Quantity::zero(),
{
    let x = n * pow2(GRAIN as nat);
    lemma2_to64_rest();
    lemma2_to64();
    assert(pow2(0) == 1);
    assert(d * pow2(53) >= d) by (nonlinear_arith)
        requires
            pow2(53) >= 1,
    ;
    assert(d * 1 == d);
    vstd::arithmetic::div_mod::lemma_basic_div(x as int, d as int);
    vstd::arithmetic::div_mod::lemma_small_mod(x, d);
}

/// What is beyond the last level is infinite.
pub proof fn lemma_nearest_to_too_much(n: nat, d: nat)
    requires
        n * pow2(GRAIN as nat) >= d * pow2((53 + LEVELS) as nat),
    ensures
        nearest(n, d) == (Quantity { bits: INFINITY }),
{
    lemma_level_passed(n, d, 0, LEVELS as nat);
}

/// Of two fractions with one denominator, the larger has no smaller nearest amount.
pub proof fn lemma_nearest_monotonic(a: nat, b: nat, d: nat)
    requires
        d > 0,
        a <= b,
    ensures
        nearest(a, d).magnitude() <= nearest(b, d).magnitude() <= INFINITY,
        !nearest(a, d).minus(),
        !nearest(b, d).minus(),
{
    lemma_nearest_fits(a, d);
    lemma_nearest_fits(b, d);
    lemma_level_found(a, d, 0);
    lemma_level_found(b, d, 0);
    let grain = pow2(GRAIN as nat);
    let (x, y) = (a * grain, b * grain);
    assert(x <= y) by (nonlinear_arith)
        requires
            x == a * grain,
            y == b * grain,
            a <= b,
    ;
    let (low, high) = (level_from(a, d, 0), level_from(b, d, 0));
    lemma_level_monotonic(a, b, d, 0);
    lemma2_to64_rest();
    if high < LEVELS {
        let p = pow2(low);
        let step = d * p;
        lemma_pow2_pos(low);
        assert(step > 0) by (nonlinear_arith)
            requires
                step == d * p,
                d > 0,
                p > 0,
        ;
        if low == high {
            lemma_round_monotonic(x, y, step);
        } else {
            lemma_pow2_adds(53, low);
            assert(d * (pow2(53) * p) == step * pow2(53)) by (nonlinear_arith)
                requires
                    step == d * p,
            ;
            lemma_round_bound(x, step, pow2(53));
            // The larger one is at least half way up its level.
            let big = d * pow2(high);
            lemma_pow2_pos(high);
            let t = pow2(high);
            assert(big > 0) by (nonlinear_arith)
                requires
                    big == d * t,
                    d > 0,
                    t > 0,
            ;
            assert((53 + high - 1) as nat == 52 + high);
            lemma_pow2_adds(52, high);
            assert(d * (pow2(52) * t) == pow2(52) * big) by (nonlinear_arith)
                requires
                    big == d * t,
            ;
            let h = pow2(52);
            assert(y >= h * big);
            vstd::arithmetic::div_mod::lemma_div_is_ordered(
                (h * big) as int,
                y as int,
                big as int,
            );
            vstd::arithmetic::div_mod::lemma_div_by_multiple(h as int, big as int);
            assert(round_half_even(y, big) >= h);
            assert(low * LEVEL + 2 * LEVEL <= high * LEVEL + LEVEL) by (nonlinear_arith)
                requires
                    low < high,
            ;
        }
    } else if low < LEVELS {
    }
}

/// A larger number is on no lower level.
proof fn lemma_level_monotonic(a: nat, b: nat, d: nat, level: nat)
    requires
        a <= b,
        level <= LEVELS,
    ensures
        level_from(a, d, level) <= level_from(b, d, level),
    decreases LEVELS - level,
{
    let grain = pow2(GRAIN as nat);
    assert(a * grain <= b * grain) by (nonlinear_arith)
        requires
            a <= b,
    ;
    lemma_level_found(b, d, level);
    if level < LEVELS && a * grain >= d * pow2(53 + level) {
        lemma_level_monotonic(a, b, d, level + 1);
    }
}

/// What is found as the nearest amount carries no minus sign and is a number.
pub proof fn lemma_nearest_is_duration()
    ensures
        forall|n: nat, d: nat|
            d > 0 ==> !(#[trigger] nearest(n, d)).minus() && !nearest(n, d).is_nan(),
        pow2(GRAIN as nat) > 0,
        forall|q: Quantity|
            #![trigger q.over()]
            q.is_finite() && q.exceeds(Quantity::zero()) ==> q.over() > 0,
{
    lemma_pow2_pos(GRAIN as nat);
    assert forall|n: nat, d: nat| d > 0 implies !(#[trigger] nearest(n, d)).minus() && !nearest(
        n,
        d,
    ).is_nan() by {
        lemma_nearest_fits(n, d);
    }
    assert forall|q: Quantity|
        #![trigger q.over()]
        q.is_finite() && q.exceeds(Quantity::zero()) implies q.over() > 0 by {
        lemma_bits_order_values(Quantity::zero(), q);
    }
}

/// An amount is the one nearest to its own value: what needs no rounding is not rounded.
pub proof fn lemma_exact_values_stay(q: Quantity)
    requires
        q.is_finite(),
        !q.minus(),
    ensures
        nearest(q.over(), q.under()) == q,
{
    let (m, t, g) = (q.steps(), q.level(), pow2(GRAIN as nat));
    let level = level_from(q.over(), q.under(), 0);
    let x = q.over();
    lemma2_to64_rest();
    lemma_pow2_pos(GRAIN as nat);
    lemma_pow2_pos(t);
    lemma_nearest_fits(x, g);
    lemma_level_found(x, g, 0);
    lemma_pow2_adds(53, t);
    lemma_pow2_adds(52, t);
    let p = pow2(t);
    assert(x < pow2(53) * p) by (nonlinear_arith)
        requires
            x == m * p,
            m < pow2(53),
            p > 0,
    ;
    if level > t {
        let below = pow2((53 + level - 1) as nat);
        if 53 + t < 53 + level - 1 {
            lemma_pow2_strictly_increases(53 + t, (53 + level - 1) as nat);
        }
        assert(x * g < g * below) by (nonlinear_arith)
            requires
                x < below,
                g > 0,
        ;
    }
    if level < t {
        let above = pow2(53 + level);
        if 53 + level < 52 + t {
            lemma_pow2_strictly_increases(53 + level, 52 + t);
        }
        assert(x >= pow2(52) * p) by (nonlinear_arith)
            requires
                x == m * p,
                m >= pow2(52),
        ;
        assert(x * g >= g * above) by (nonlinear_arith)
            requires
                x >= above,
        ;
    }
    assert(x * g == m * (g * p)) by (nonlinear_arith)
        requires
            x == m * p,
    ;
    assert(g * p > 0) by (nonlinear_arith)
        requires
            g > 0,
            p > 0,
    ;
    assert(1 * (g * p) == g * p);
    lemma_common_factor(m, 1, g * p);
    assert(m % 1 == 0 && m / 1 == m);
}

/// Whatever is computed from amounts that are not negative is not negative.
pub proof fn lemma_results_are_durations()
    ensures
        forall|n: nat| !(#[trigger] Quantity::of(n)).minus(),
        forall|q: Quantity, k: nat| !q.minus() ==> !(#[trigger] q.times(k)).minus(),
        forall|q: Quantity, k: nat| !q.minus() && k > 0 ==> !(#[trigger] q.divided(k)).minus(),
{
    lemma_nearest_is_duration();
    assert forall|q: Quantity, k: nat| !q.minus() && k > 0 implies !(#[trigger] q.divided(
        k,
    )).minus() by {
        let p = pow2(GRAIN as nat);
        assert(p * k > 0) by (nonlinear_arith)
            requires
                p > 0,
                k > 0,
        ;
    }
}

/// More gains and fewer losses leave no smaller net amount.
pub proof fn lemma_net_monotonic(gains: nat, losses: nat, more: nat, fewer: nat, d: nat)
    requires
        d > 0,
        gains + fewer <= more + losses,
    ensures
        nearest_net(gains, losses, d).rank() <= nearest_net(more, fewer, d).rank(),
        !nearest_net(gains, losses, d).is_nan(),
        !nearest_net(more, fewer, d).is_nan(),
{
    lemma_nearest_is_duration();
    if gains >= losses {
        lemma_nearest_monotonic((gains - losses) as nat, (more - fewer) as nat, d);
    } else if more < fewer {
        lemma_nearest_monotonic((fewer - more) as nat, (losses - gains) as nat, d);
    } else {
        lemma_nearest_monotonic(0, (losses - gains) as nat, d);
        lemma_nearest_monotonic(0, (more - fewer) as nat, d);
    }
}

/// The bits order finite amounts as their values do.
pub proof fn lemma_bits_order_values(a: Quantity, b: Quantity)
    requires
        a.is_finite(),
        b.is_finite(),
    ensures
        a.magnitude() < b.magnitude() <==> a.over() < b.over(),
        a.magnitude() == b.magnitude() <==> a.over() == b.over(),
{
    lemma_smaller_bits(a, b);
    lemma_smaller_bits(b, a);
}

proof fn lemma_smaller_bits(a: Quantity, b: Quantity)
    requires
        a.is_finite(),
        b.is_finite(),
    ensures
        a.magnitude() < b.magnitude() ==> a.over() < b.over(),
        a.magnitude() == b.magnitude() ==> a.over() == b.over(),
{
    if a.magnitude() < b.magnitude() {
        let (s, t) = (a.level(), b.level());
        let (m, k) = (a.steps(), b.steps());
        assert(s <= t);
        let (p, q) = (pow2(s), pow2(t));
        lemma_pow2_pos(s);
        if s == t {
            assert(m < k);
            assert(m * p < k * p) by (nonlinear_arith)
                requires
                    m < k,
                    p > 0,
            ;
        } else {
            assert(m < 2 * LEVEL);
            assert(k >= LEVEL);
            lemma_pow2_unfold(s + 1);
            if s + 1 < t {
                lemma_pow2_strictly_increases(s + 1, t);
            }
            assert(m * p < k * q) by (nonlinear_arith)
                requires
                    m < 2 * LEVEL,
                    k >= LEVEL,
                    q >= 2 * p,
                    p > 0,
            ;
        }
    }
}

} // verus!

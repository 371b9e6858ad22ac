//! Natural numbers of any size.

use vstd::arithmetic::power2::{lemma_pow2_adds, lemma_pow2_unfold, pow2};
use vstd::prelude::*;

verus! {

/// One more than the largest limb.
pub const LIMB_BASE: u64 = 0x1_0000_0000;

/// The base to the power `i`.
pub open spec fn place(i: nat) -> nat
    decreases i,
{
    if i == 0 {
        1
    } else {
        LIMB_BASE as nat * place((i - 1) as nat)
    }
}

/// What limbs stand for, the lowest first.
pub open spec fn limbs_value(limbs: Seq<u32>) -> nat
    decreases limbs.len(),
{
    if limbs.len() == 0 {
        0
    } else {
        limbs_value(limbs.drop_last()) + limbs.last() as nat * place((limbs.len() - 1) as nat)
    }
}

/// A natural number.
#[derive(Debug)]
pub struct Natural {
    limbs: Vec<u32>,
}

/// One more limb adds its place.
proof fn lemma_limb_step(limbs: Seq<u32>, i: int)
    requires
        0 <= i < limbs.len(),
    ensures
        limbs_value(limbs.take(i + 1)) == limbs_value(limbs.take(i)) + limbs[i] as nat * place(
            i as nat,
        ),
{
    assert(limbs.take(i + 1).drop_last() =~= limbs.take(i));
}

/// Limbs stand for less than the next place.
proof fn lemma_limbs_bound(limbs: Seq<u32>)
    ensures
        limbs_value(limbs) < place(limbs.len()),
    decreases limbs.len(),
{
    if limbs.len() > 0 {
        lemma_limbs_bound(limbs.drop_last());
        let p = place((limbs.len() - 1) as nat);
        let top = limbs.last() as nat;
        assert(p + top * p <= LIMB_BASE as nat * p) by (nonlinear_arith)
            requires
                top + 1 <= LIMB_BASE,
        ;
    }
}

/// The limb at `i`, or nothing past the end.
spec fn limb_at(limbs: Seq<u32>, i: int) -> nat {
    if 0 <= i < limbs.len() {
        limbs[i] as nat
    } else {
        0
    }
}

/// The first `i` limbs, or all where there are fewer.
spec fn low(limbs: Seq<u32>, i: int) -> Seq<u32> {
    if i < limbs.len() {
        limbs.take(i)
    } else {
        limbs
    }
}

proof fn lemma_low_step(limbs: Seq<u32>, i: int)
    requires
        0 <= i,
    ensures
        limbs_value(low(limbs, i + 1)) == limbs_value(low(limbs, i)) + limb_at(limbs, i) * place(
            i as nat,
        ),
{
    if i < limbs.len() {
        lemma_limb_step(limbs, i);
        if i + 1 == limbs.len() {
            assert(limbs.take(i + 1) =~= limbs);
        }
    }
}

/// One limb of a sum or difference, moved to its place.
proof fn lemma_carry(p: nat, digit: nat, carry: nat, total: nat)
    requires
        digit + carry * LIMB_BASE == total,
    ensures
        digit * p + carry * (LIMB_BASE as nat * p) == total * p,
{
    assert(digit * p + carry * (LIMB_BASE as nat * p) == total * p) by (nonlinear_arith)
        requires
            digit + carry * LIMB_BASE == total,
    ;
}

impl View for Natural {
    type V = nat;

    closed spec fn view(&self) -> nat {
        limbs_value(self.limbs@)
    }
}

impl Natural {
    /// `n` as a natural number.
    pub fn from_u64(n: u64) -> (r: Natural)
        ensures
            r@ == n,
    {
        let mut limbs: Vec<u32> = Vec::new();
        limbs.push((n % LIMB_BASE) as u32);
        limbs.push((n / LIMB_BASE) as u32);
        proof {
            let front = limbs@.drop_last();
            assert(front.drop_last() =~= Seq::empty());
            assert(limbs_value(front.drop_last()) == 0);
            assert(place(0) == 1 && place(1) == LIMB_BASE);
            assert(limbs_value(front) == front.last() as nat * 1);
            assert(limbs_value(limbs@) == limbs_value(front) + limbs@.last() as nat * place(1));
        }
        Natural { limbs }
    }

    /// The same number once more.
    pub fn copy(&self) -> (r: Natural)
        ensures
            r@ == self@,
    {
        let mut limbs: Vec<u32> = Vec::new();
        let n: usize = self.limbs.len();
        let mut i: usize = 0;
        while i < n
            invariant
                i <= n == self.limbs@.len(),
                limbs@ == self.limbs@.take(i as int),
            decreases n - i,
        {
            limbs.push(self.limbs[i]);
            assert(limbs@ =~= self.limbs@.take(i + 1));
            i = i + 1;
        }
        assert(self.limbs@.take(n as int) =~= self.limbs@);
        Natural { limbs }
    }

    /// Multiplies by `factor` and adds `more`.
    pub fn times_plus(&mut self, factor: u32, more: u32)
        ensures
            final(self)@ == old(self)@ * factor + more,
    {
        let n: usize = self.limbs.len();
        let ghost start: Seq<u32> = self.limbs@;
        let mut carry: u64 = more as u64;
        let mut i: usize = 0;
        proof {
            assert(start.take(0) =~= Seq::empty());
            assert(self.limbs@.take(0) =~= Seq::empty());
            assert(limbs_value(start.take(0)) * factor == 0) by (nonlinear_arith)
                requires
                    limbs_value(start.take(0)) == 0,
            ;
            assert(carry * place(0) == carry) by (nonlinear_arith)
                requires
                    place(0) == 1,
            ;
        }
        while i < n
            invariant
                i <= n == self.limbs@.len() == start.len(),
                carry < LIMB_BASE,
                forall|k: int| i <= k < n ==> self.limbs@[k] == start[k],
                limbs_value(self.limbs@.take(i as int)) + carry * place(i as nat) == limbs_value(
                    start.take(i as int),
                ) * factor + more,
            decreases n - i,
        {
            let limb: u32 = self.limbs[i];
            let ghost before: Seq<u32> = self.limbs@;
            assert(limb * factor <= 0xffff_ffff * 0xffff_ffff) by (nonlinear_arith)
                requires
                    limb <= 0xffff_ffff,
                    factor <= 0xffff_ffff,
            ;
            let total: u64 = (limb as u64) * (factor as u64) + carry;
            self.limbs.set(i, (total % LIMB_BASE) as u32);
            proof {
                let p = place(i as nat);
                let digit = (total % LIMB_BASE) as nat;
                let next = (total / LIMB_BASE) as nat;
                lemma_limb_step(self.limbs@, i as int);
                lemma_limb_step(start, i as int);
                assert(self.limbs@.take(i as int) =~= before.take(i as int));
                lemma_carry(p, digit, next, total as nat);
                let low_start = limbs_value(start.take(i as int));
                let l = limb as nat;
                let f = factor as nat;
                let c = carry as nat;
                assert((low_start + l * p) * f == low_start * f + (l * f) * p) by (nonlinear_arith);
                assert((l * f + c) * p == (l * f) * p + c * p) by (nonlinear_arith);
            }
            carry = total / LIMB_BASE;
            i = i + 1;
        }
        proof {
            assert(start.take(n as int) =~= start);
            assert(self.limbs@.take(n as int) =~= self.limbs@);
        }
        let ghost middle: Seq<u32> = self.limbs@;
        self.limbs.push(carry as u32);
        assert(self.limbs@.drop_last() =~= middle);
        self.trim();
    }

    /// Takes off zeros at the top.
    fn trim(&mut self)
        ensures
            final(self)@ == old(self)@,
    {
        let ghost start: nat = self@;
        while self.limbs.len() > 0 && self.limbs[self.limbs.len() - 1] == 0
            invariant
                self@ == start,
            decreases self.limbs@.len(),
        {
            let ghost before: Seq<u32> = self.limbs@;
            let top: Option<u32> = self.limbs.pop();
            proof {
                assert(self.limbs@ =~= before.drop_last());
                assert(0 * place((before.len() - 1) as nat) == 0) by (nonlinear_arith);
            }
        }
    }

    /// Adds another number.
    pub fn plus(&mut self, other: &Natural)
        ensures
            final(self)@ == old(self)@ + other@,
    {
        let ghost start: Seq<u32> = self.limbs@;
        let a_len: usize = self.limbs.len();
        let b_len: usize = other.limbs.len();
        let n: usize = if a_len > b_len {
            a_len
        } else {
            b_len
        };
        let mut out: Vec<u32> = Vec::new();
        let mut carry: u64 = 0;
        let mut i: usize = 0;
        proof {
            assert(low(start, 0) =~= Seq::empty());
            assert(low(other.limbs@, 0) =~= Seq::empty());
            assert(0 * place(0) == 0);
        }
        while i < n
            invariant
                i <= n,
                carry <= 1,
                a_len == self.limbs@.len(),
                b_len == other.limbs@.len(),
                self.limbs@ == start,
                out@.len() == i,
                limbs_value(out@) + carry * place(i as nat) == limbs_value(low(start, i as int))
                    + limbs_value(low(other.limbs@, i as int)),
            decreases n - i,
        {
            let a: u64 = if i < a_len {
                self.limbs[i] as u64
            } else {
                0
            };
            let b: u64 = if i < b_len {
                other.limbs[i] as u64
            } else {
                0
            };
            let total: u64 = a + b + carry;
            let ghost before: Seq<u32> = out@;
            out.push((total % LIMB_BASE) as u32);
            proof {
                let p = place(i as nat);
                assert(out@.drop_last() =~= before);
                lemma_low_step(start, i as int);
                lemma_low_step(other.limbs@, i as int);
                lemma_carry(
                    p,
                    (total % LIMB_BASE) as nat,
                    (total / LIMB_BASE) as nat,
                    total as nat,
                );
                let (x, y, c) = (a as nat, b as nat, carry as nat);
                assert((x + y + c) * p == x * p + y * p + c * p) by (nonlinear_arith);
            }
            carry = total / LIMB_BASE;
            i = i + 1;
        }
        let ghost middle: Seq<u32> = out@;
        out.push(carry as u32);
        proof {
            assert(out@.drop_last() =~= middle);
        }
        self.limbs = out;
        self.trim();
    }

    /// This number less another, or `None` where the other is larger.
    pub fn minus(&self, other: &Natural) -> (r: Option<Natural>)
        ensures
            r is Some <==> self@ >= other@,
            r matches Some(d) ==> d@ == self@ - other@,
    {
        let a_len: usize = self.limbs.len();
        let b_len: usize = other.limbs.len();
        let n: usize = if a_len > b_len {
            a_len
        } else {
            b_len
        };
        let mut out: Vec<u32> = Vec::new();
        let mut borrow: u64 = 0;
        let mut i: usize = 0;
        proof {
            assert(low(self.limbs@, 0) =~= Seq::empty());
            assert(low(other.limbs@, 0) =~= Seq::empty());
            assert(0 * place(0) == 0);
        }
        while i < n
            invariant
                i <= n,
                borrow <= 1,
                a_len == self.limbs@.len(),
                b_len == other.limbs@.len(),
                out@.len() == i,
                limbs_value(out@) + limbs_value(low(other.limbs@, i as int)) == limbs_value(
                    low(self.limbs@, i as int),
                ) + borrow * place(i as nat),
            decreases n - i,
        {
            let a: u64 = if i < a_len {
                self.limbs[i] as u64
            } else {
                0
            };
            let b: u64 = if i < b_len {
                other.limbs[i] as u64
            } else {
                0
            };
            let total: u64 = LIMB_BASE + a - b - borrow;
            let digit: u64 = total % LIMB_BASE;
            let next: u64 = 1 - total / LIMB_BASE;
            let ghost before: Seq<u32> = out@;
            out.push(digit as u32);
            proof {
                let p = place(i as nat);
                assert(out@.drop_last() =~= before);
                lemma_low_step(self.limbs@, i as int);
                lemma_low_step(other.limbs@, i as int);
                let (x, y, c, d, e) = (a as nat, b as nat, borrow as nat, digit as nat, next as nat);
                assert(d + y + c == x + e * LIMB_BASE);
                assert(d * p + y * p + c * p == x * p + e * (LIMB_BASE as nat * p))
                    by (nonlinear_arith)
                    requires
                        d + y + c == x + e * LIMB_BASE,
                ;
            }
            borrow = next;
            i = i + 1;
        }
        proof {
            lemma_limbs_bound(out@);
            assert(low(self.limbs@, n as int) =~= self.limbs@);
            assert(low(other.limbs@, n as int) =~= other.limbs@);
            let p = place(n as nat);
            assert(1 * p == p && 0 * p == 0) by (nonlinear_arith);
        }
        if borrow == 1 {
            return None;
        }
        let mut difference: Natural = Natural { limbs: out };
        difference.trim();
        Some(difference)
    }

    /// Whether the number is zero.
    pub fn is_zero(&self) -> (r: bool)
        ensures
            r == (self@ == 0),
    {
        let zero: Natural = Natural { limbs: Vec::new() };
        zero.minus(self).is_some()
    }

    /// Multiplies by two to the power `k`.
    pub fn shift(&mut self, k: u32)
        ensures
            final(self)@ == old(self)@ * pow2(k as nat),
    {
        let ghost start: nat = self@;
        let mut i: u32 = 0;
        let limbs: u32 = k / 31;
        proof {
            vstd::arithmetic::power2::lemma2_to64();
            assert(start * 1 == start);
        }
        while i < limbs
            invariant
                i <= limbs == k / 31,
                self@ == start * pow2((31 * i) as nat),
            decreases limbs - i,
        {
            self.times_plus(0x8000_0000, 0);
            proof {
                lemma_pow2_adds((31 * i) as nat, 31);
                vstd::arithmetic::power2::lemma2_to64();
                let p = pow2((31 * i) as nat);
                assert((start * p) * 0x8000_0000 == start * (p * 0x8000_0000)) by (nonlinear_arith);
                assert(31 * i + 31 == 31 * (i + 1));
            }
            i = i + 1;
        }
        let mut j: u32 = 31 * limbs;
        while j < k
            invariant
                j <= k,
                self@ == start * pow2(j as nat),
            decreases k - j,
        {
            self.times_plus(2, 0);
            proof {
                lemma_pow2_unfold((j + 1) as nat);
                let p = pow2(j as nat);
                assert((start * p) * 2 == start * (2 * p)) by (nonlinear_arith);
            }
            j = j + 1;
        }
    }

    /// Divides by `divisor`, and gives the remainder.
    pub fn divide(&mut self, divisor: u32) -> (rest: u32)
        requires
            divisor > 0,
        ensures
            old(self)@ == final(self)@ * divisor + rest,
            rest < divisor,
    {
        let n: usize = self.limbs.len();
        let ghost start: Seq<u32> = self.limbs@;
        let mut rest: u64 = 0;
        let mut i: usize = n;
        proof {
            assert(start.take(n as int) =~= start);
            lemma_high_empty(self.limbs@, n as int);
            assert(0 * place(n as nat) == 0);
            assert(0 * divisor as nat == 0);
        }
        while i > 0
            invariant
                i <= n == self.limbs@.len() == start.len(),
                rest < divisor,
                forall|k: int| 0 <= k < i ==> self.limbs@[k] == start[k],
                limbs_value(start) == limbs_value(start.take(i as int)) + high_value(
                    self.limbs@,
                    i as int,
                ) * divisor + rest * place(i as nat),
            decreases i,
        {
            let ghost before: Seq<u32> = self.limbs@;
            let total: u64 = rest * LIMB_BASE + self.limbs[i - 1] as u64;
            let digit: u64 = total / divisor as u64;
            let left: u64 = total % divisor as u64;
            assert(digit < LIMB_BASE) by (nonlinear_arith)
                requires
                    total < divisor * LIMB_BASE,
                    digit == total / divisor as u64,
                    divisor > 0,
            ;
            self.limbs.set(i - 1, digit as u32);
            proof {
                let p = place((i - 1) as nat);
                lemma_limb_step(start, i - 1);
                lemma_high_step(self.limbs@, i - 1);
                lemma_high_agree(before, self.limbs@, i as int);
                vstd::arithmetic::div_mod::lemma_fundamental_div_mod(
                    total as int,
                    divisor as int,
                );
                let limb = start[i - 1] as nat;
                let (d, l, r, v) = (digit as nat, left as nat, rest as nat, divisor as nat);
                let h = high_value(self.limbs@, i as int);
                assert(r * LIMB_BASE + limb == v * d + l);
                assert(limb * p + h * v + r * (LIMB_BASE as nat * p) == (h + d * p) * v + l * p)
                    by (nonlinear_arith)
                    requires
                        r * LIMB_BASE + limb == v * d + l,
                ;
            }
            rest = left;
            i = i - 1;
        }
        proof {
            assert(start.take(0) =~= Seq::empty());
            lemma_high_all(self.limbs@);
            let r = rest as nat;
            assert(r * place(0) == r) by (nonlinear_arith)
                requires
                    place(0) == 1,
            ;
        }
        self.trim();
        rest as u32
    }
}

/// What the limbs from `i` on stand for.
spec fn high_value(limbs: Seq<u32>, i: int) -> nat
    decreases limbs.len() - i,
{
    if 0 <= i < limbs.len() {
        limbs[i] as nat * place(i as nat) + high_value(limbs, i + 1)
    } else {
        0
    }
}

proof fn lemma_high_empty(limbs: Seq<u32>, i: int)
    requires
        i >= limbs.len(),
    ensures
        high_value(limbs, i) == 0,
{
}

proof fn lemma_high_step(limbs: Seq<u32>, i: int)
    requires
        0 <= i < limbs.len(),
    ensures
        high_value(limbs, i) == limbs[i] as nat * place(i as nat) + high_value(limbs, i + 1),
{
}

proof fn lemma_high_agree(a: Seq<u32>, b: Seq<u32>, i: int)
    requires
        a.len() == b.len(),
        0 <= i,
        forall|k: int| i <= k < a.len() ==> a[k] == b[k],
    ensures
        high_value(a, i) == high_value(b, i),
    decreases a.len() - i,
{
    if i < a.len() {
        lemma_high_agree(a, b, i + 1);
    }
}

proof fn lemma_high_all(limbs: Seq<u32>)
    ensures
        high_value(limbs, 0) == limbs_value(limbs),
{
    lemma_high_rest(limbs, limbs.len() as int);
    assert(limbs.take(limbs.len() as int) =~= limbs);
    lemma_high_empty(limbs, limbs.len() as int);
}

proof fn lemma_high_rest(limbs: Seq<u32>, i: int)
    requires
        0 <= i <= limbs.len(),
    ensures
        high_value(limbs, 0) == limbs_value(limbs.take(i)) + high_value(limbs, i),
    decreases i,
{
    if i > 0 {
        lemma_high_rest(limbs, i - 1);
        lemma_limb_step(limbs, i - 1);
        lemma_high_step(limbs, i - 1);
    } else {
        assert(limbs.take(0) =~= Seq::empty());
    }
}

} // verus!

//! Reading a load average from its text.

use vstd::arithmetic::power2::{
    lemma2_to64, lemma_pow2_adds, lemma_pow2_pos, lemma_pow2_strictly_increases,
    lemma_pow2_unfold, pow2,
};
use vstd::prelude::*;
use vstd::string::StrSliceExecFns;

use crate::natural::Natural;
use crate::quantity::{
    lemma_nearest_to_nothing, lemma_nearest_to_too_much, lemma_pow10_monotonic, nearest,
    nearest_to, with_sign, Quantity, GRAIN, INFINITY, LEVELS, NOT_A_NUMBER,
};
use crate::text::pow10;

verus! {

/// Unicode white space.
pub open spec fn is_white(c: char) -> bool {
    let u = c as u32;
    ||| 0x9 <= u <= 0xd
    ||| u == 0x20
    ||| u == 0x85
    ||| u == 0xa0
    ||| u == 0x1680
    ||| 0x2000 <= u <= 0x200a
    ||| u == 0x2028
    ||| u == 0x2029
    ||| u == 0x202f
    ||| u == 0x205f
    ||| u == 0x3000
}

/// Where the white space from `i` on ends.
pub open spec fn white_end(text: Seq<char>, i: int) -> int
    decreases text.len() - i,
{
    if 0 <= i < text.len() && is_white(text[i]) {
        white_end(text, i + 1)
    } else {
        i
    }
}

/// Where the word from `i` on ends.
pub open spec fn word_end(text: Seq<char>, i: int) -> int
    decreases text.len() - i,
{
    if 0 <= i < text.len() && !is_white(text[i]) {
        word_end(text, i + 1)
    } else {
        i
    }
}

/// The first word of a text; empty where there is none.
pub open spec fn first_word(text: Seq<char>) -> Seq<char> {
    let start = white_end(text, 0);
    text.subrange(start, word_end(text, start))
}

/// A decimal digit.
pub open spec fn is_digit(c: char) -> bool {
    '0' <= c <= '9'
}

/// Where the digits from `i` on end.
pub open spec fn digits_end(s: Seq<char>, i: int) -> int
    decreases s.len() - i,
{
    if 0 <= i < s.len() && is_digit(s[i]) {
        digits_end(s, i + 1)
    } else {
        i
    }
}

/// The number that the digits from `i` up to `end` stand for, behind `high`.
pub open spec fn digits_value(s: Seq<char>, i: int, end: int, high: nat) -> nat
    decreases end - i,
{
    if i >= end {
        high
    } else {
        digits_value(s, i + 1, end, (high * 10 + (s[i] as u32 - '0' as u32)) as nat)
    }
}

/// A decimal numeral: `mantissa` times ten to the power `-scale`.
pub struct Numeral {
    pub negative: bool,
    pub mantissa: nat,
    pub scale: int,
}

/// One past a sign at `i`, where there is one.
pub open spec fn past_sign(s: Seq<char>, i: int) -> int {
    if 0 <= i < s.len() && (s[i] == '+' || s[i] == '-') {
        i + 1
    } else {
        i
    }
}

/// There is a minus sign at `i`.
pub open spec fn minus_at(s: Seq<char>, i: int) -> bool {
    0 <= i < s.len() && s[i] == '-'
}

/// Where the digits behind the point begin, if the digits before it end at `i`.
pub open spec fn past_point(s: Seq<char>, i: int) -> int {
    if 0 <= i < s.len() && s[i] == '.' {
        i + 1
    } else {
        i
    }
}

/// The exponent from `i` on, which must reach to the end: nothing, or `e` and an integer.
pub open spec fn exponent(s: Seq<char>, i: int) -> Option<int> {
    if i == s.len() {
        Some(0)
    } else if s[i] == 'e' || s[i] == 'E' {
        let start = past_sign(s, i + 1);
        let end = digits_end(s, start);
        if end == s.len() && end > start {
            let value = digits_value(s, start, end, 0);
            Some(
                if minus_at(s, i + 1) {
                    -value
                } else {
                    value as int
                },
            )
        } else {
            None
        }
    } else {
        None
    }
}

/// The numeral that `s` is: an optional sign, digits with an optional point among, before or
/// behind them, and an optional exponent.
pub open spec fn numeral(s: Seq<char>) -> Option<Numeral> {
    let start = past_sign(s, 0);
    let whole_end = digits_end(s, start);
    let part = past_point(s, whole_end);
    let part_end = if part > whole_end {
        digits_end(s, part)
    } else {
        whole_end
    };
    let part_digits = part_end - part;
    if (whole_end - start) + part_digits == 0 {
        None
    } else {
        match exponent(s, part_end) {
            Some(e) => Some(
                Numeral {
                    negative: minus_at(s, 0),
                    mantissa: digits_value(
                        s,
                        part,
                        part_end,
                        digits_value(s, start, whole_end, 0),
                    ),
                    scale: part_digits - e,
                },
            ),
            None => None,
        }
    }
}

impl Numeral {
    /// The numerator of the value as a fraction.
    pub open spec fn over(self) -> nat {
        if self.scale < 0 {
            self.mantissa * pow10((-self.scale) as nat)
        } else {
            self.mantissa
        }
    }

    /// The denominator of the value as a fraction.
    pub open spec fn under(self) -> nat {
        if self.scale > 0 {
            pow10(self.scale as nat)
        } else {
            1
        }
    }
}

/// `c` is `letter`, a small one, or its capital.
pub open spec fn is_letter(c: char, letter: char) -> bool {
    c == letter || ('A' <= c <= 'Z' && c as u32 + 32 == letter as u32)
}

/// From `i` on, `s` spells `name` to its end, in small letters or capitals.
pub open spec fn spells(s: Seq<char>, i: int, name: Seq<char>) -> bool {
    &&& s.len() - i == name.len()
    &&& forall|k: int| 0 <= k < name.len() ==> is_letter(#[trigger] s[i + k], name[k])
}

/// The amount that a word stands for: infinity and what is no number by their names, and else the
/// amount nearest to the decimal numeral that it is.
pub open spec fn amount_of(word: Seq<char>) -> Option<Quantity> {
    let start = past_sign(word, 0);
    if spells(word, start, "inf"@) || spells(word, start, "infinity"@) {
        Some(with_sign(Quantity { bits: INFINITY }, minus_at(word, 0)))
    } else if spells(word, start, "nan"@) {
        Some(with_sign(Quantity { bits: NOT_A_NUMBER }, minus_at(word, 0)))
    } else {
        match numeral(word) {
            Some(n) => Some(with_sign(nearest(n.over(), n.under()), n.negative)),
            None => None,
        }
    }
}

/// Whether `c` is white space.
fn white(c: char) -> (r: bool)
    ensures
        r == is_white(c),
{
    let u: u32 = c as u32;
    (0x9 <= u && u <= 0xd) || u == 0x20 || u == 0x85 || u == 0xa0 || u == 0x1680 || (0x2000 <= u
        && u <= 0x200a) || u == 0x2028 || u == 0x2029 || u == 0x202f || u == 0x205f || u == 0x3000
}

/// Takes the first word of a text.
fn take_first_word(text: &str) -> (r: &str)
    ensures
        r@ == first_word(text@),
{
    let n: usize = text.unicode_len();
    let mut start: usize = 0;
    while start < n && white(text.get_char(start))
        invariant
            start <= n == text@.len(),
            white_end(text@, 0) == white_end(text@, start as int),
        decreases n - start,
    {
        start = start + 1;
    }
    let mut end: usize = start;
    while end < n && !white(text.get_char(end))
        invariant
            start <= end <= n == text@.len(),
            word_end(text@, start as int) == word_end(text@, end as int),
        decreases n - end,
    {
        end = end + 1;
    }
    text.substring_char(start, end)
}

/// `kept` is `value`, or `None` where that is too large for a `u128`.
spec fn holds(kept: Option<u128>, value: nat) -> bool {
    match kept {
        Some(v) => v == value,
        None => value > u128::MAX,
    }
}

/// Reads the digits from `from` on, behind those read before. Gives where they end and what
/// they all stand for.
fn scan_digits(s: &str, from: usize, high: Option<u128>, Ghost(high_value): Ghost<nat>) -> (r: (
    usize,
    Option<u128>,
))
    requires
        from <= s@.len(),
        holds(high, high_value),
    ensures
        from <= r.0 <= s@.len(),
        r.0 == digits_end(s@, from as int),
        holds(r.1, digits_value(s@, from as int, r.0 as int, high_value)),
{
    let n: usize = s.unicode_len();
    let mut i: usize = from;
    let mut kept: Option<u128> = high;
    let ghost mut value: nat = high_value;
    let ghost end: int = digits_end(s@, from as int);
    loop
        invariant
            from <= i <= n == s@.len(),
            end == digits_end(s@, from as int),
            end == digits_end(s@, i as int),
            digits_value(s@, from as int, end, high_value) == digits_value(
                s@,
                i as int,
                end,
                value,
            ),
            holds(kept, value),
        ensures
            i == end,
            holds(kept, value),
            digits_value(s@, from as int, end, high_value) == value,
            from <= i <= s@.len(),
        decreases n - i,
    {
        if i >= n {
            break;
        }
        let c: char = s.get_char(i);
        if c < '0' || c > '9' {
            break;
        }
        proof {
            lemma_digits_end_is_past(s@, i + 1);
        }
        let d: u128 = (c as u32 - '0' as u32) as u128;
        kept = match kept {
            Some(v) => if v > (u128::MAX - d) / 10 {
                None
            } else {
                Some(v * 10 + d)
            },
            None => None,
        };
        proof {
            value = (value * 10 + (c as u32 - '0' as u32)) as nat;
        }
        i = i + 1;
    }
    (i, kept)
}

/// Reads the digits from `from` on, behind those that are in `kept`. Gives where they end.
fn scan_mantissa(s: &str, from: usize, kept: &mut Natural) -> (r: usize)
    requires
        from <= s@.len(),
    ensures
        from <= r <= s@.len(),
        r == digits_end(s@, from as int),
        final(kept)@ == digits_value(s@, from as int, r as int, old(kept)@),
{
    let n: usize = s.unicode_len();
    let mut i: usize = from;
    let ghost high: nat = kept@;
    let ghost end: int = digits_end(s@, from as int);
    loop
        invariant
            from <= i <= n == s@.len(),
            end == digits_end(s@, from as int),
            end == digits_end(s@, i as int),
            digits_value(s@, from as int, end, high) == digits_value(s@, i as int, end, kept@),
        ensures
            i == end,
            kept@ == digits_value(s@, from as int, end, high),
            from <= i <= s@.len(),
        decreases n - i,
    {
        if i >= n {
            break;
        }
        let c: char = s.get_char(i);
        if c < '0' || c > '9' {
            break;
        }
        proof {
            lemma_digits_end_is_past(s@, i + 1);
        }
        kept.times_plus(10, c as u32 - '0' as u32);
        i = i + 1;
    }
    i
}

/// Digits do not end before they begin.
pub proof fn lemma_digits_end_is_past(s: Seq<char>, i: int)
    ensures
        digits_end(s, i) >= i,
    decreases s.len() - i,
{
    if 0 <= i < s.len() && is_digit(s[i]) {
        lemma_digits_end_is_past(s, i + 1);
    }
}

/// Digits stand for less than the power of ten that has one more.
proof fn lemma_digits_bound(s: Seq<char>, i: int, end: int, high: nat)
    requires
        0 <= i <= end <= s.len(),
        forall|k: int| i <= k < end ==> is_digit(#[trigger] s[k]),
    ensures
        digits_value(s, i, end, high) < (high + 1) * pow10((end - i) as nat),
    decreases end - i,
{
    if i < end {
        assert(is_digit(s[i]));
        let d = (s[i] as u32 - '0' as u32) as nat;
        let next = high * 10 + d;
        lemma_digits_bound(s, i + 1, end, next);
        let p = pow10((end - i - 1) as nat);
        assert((next + 1) * p <= (high + 1) * (10 * p)) by (nonlinear_arith)
            requires
                next + 1 <= (high + 1) * 10,
        ;
    } else {
        assert((high + 1) * 1 == high + 1);
    }
}

/// What is read as digits is digits.
pub proof fn lemma_digits_are_digits(s: Seq<char>, i: int)
    requires
        0 <= i,
    ensures
        forall|k: int| i <= k < digits_end(s, i) ==> is_digit(#[trigger] s[k]),
    decreases s.len() - i,
{
    if i < s.len() && is_digit(s[i]) {
        lemma_digits_are_digits(s, i + 1);
    }
}

/// Ten is more than eight.
proof fn lemma_ten_over_two(k: nat)
    ensures
        pow10(k) >= pow2(3 * k),
        pow10(k) > 0,
    decreases k,
{
    lemma2_to64();
    if k > 0 {
        lemma_ten_over_two((k - 1) as nat);
        lemma_pow2_adds(3, (3 * (k - 1)) as nat);
        assert(3 + 3 * (k - 1) == 3 * k);
    }
}

/// Powers of ten add up.
proof fn lemma_pow10_adds(a: nat, b: nat)
    ensures
        pow10(a) * pow10(b) == pow10(a + b),
    decreases a,
{
    if a > 0 {
        lemma_pow10_adds((a - 1) as nat, b);
        let (p, q) = (pow10((a - 1) as nat), pow10(b));
        assert((10 * p) * q == 10 * (p * q)) by (nonlinear_arith);
    } else {
        assert(1 * pow10(b) == pow10(b));
    }
}

/// A numeral with so many places is nearest to zero.
proof fn lemma_far_below(m: nat, digits: nat, scale: nat)
    requires
        m < pow10(digits),
        scale >= digits + MARGIN,
    ensures
        nearest(m, pow10(scale)) == Quantity::zero(),
{
    let g = pow2(GRAIN as nat);
    let rest = (scale - digits) as nat;
    lemma_pow10_adds(digits, rest);
    lemma_ten_over_two(rest);
    lemma_pow2_strictly_increases((GRAIN + 1) as nat, 3 * rest);
    lemma_pow2_unfold((GRAIN + 1) as nat);
    lemma_pow2_pos(GRAIN as nat);
    let (d, t) = (pow10(digits), pow10(rest));
    assert(2 * (m * g) < d * t) by (nonlinear_arith)
        requires
            m < d,
            t >= 2 * g,
            g > 0,
    ;
    lemma_nearest_to_nothing(m, pow10(scale));
}

/// A numeral with so many zeros is infinite.
proof fn lemma_far_above(m: nat, up: nat)
    requires
        m > 0,
        up >= MARGIN,
    ensures
        nearest(m * pow10(up), 1) == (Quantity { bits: INFINITY }),
{
    let g = pow2(GRAIN as nat);
    lemma_ten_over_two(up);
    lemma_pow2_strictly_increases((53 + LEVELS) as nat, 3 * up + GRAIN as nat);
    lemma_pow2_adds(3 * up, GRAIN as nat);
    let (p, q) = (pow10(up), pow2(3 * up));
    assert((m * p) * g >= q * g) by (nonlinear_arith)
        requires
            m >= 1,
            p >= q,
    ;
    assert(1 * pow2((53 + LEVELS) as nat) == pow2((53 + LEVELS) as nat));
    lemma_nearest_to_too_much(m * p, 1);
}

/// Multiplies by ten to the power `k`.
fn shift_tens(n: &mut Natural, k: u128)
    ensures
        final(n)@ == old(n)@ * pow10(k as nat),
{
    let ghost start: nat = n@;
    let mut i: u128 = 0;
    assert(start * 1 == start);
    while i < k
        invariant
            i <= k,
            n@ == start * pow10(i as nat),
        decreases k - i,
    {
        n.times_plus(10, 0);
        proof {
            let p = pow10(i as nat);
            assert((start * p) * 10 == start * (10 * p)) by (nonlinear_arith);
        }
        i = i + 1;
    }
}

/// How many powers of ten are certainly more than all levels together.
pub const MARGIN: u32 = 700;

/// The amount nearest to the numeral with the mantissa `m` of at most `digits` digits, `places` of
/// them behind the point, and an exponent of which `exp` is the size.
fn value_of(
    m: &Natural,
    digits: usize,
    places: usize,
    exp: Option<u128>,
    exp_minus: bool,
    Ghost(e): Ghost<nat>,
) -> (q: Quantity)
    requires
        m@ < pow10(digits as nat),
        places <= digits,
        holds(exp, e),
    ensures
        ({
            let n = Numeral {
                negative: false,
                mantissa: m@,
                scale: places - if exp_minus {
                    -e
                } else {
                    e as int
                },
            };
            q == nearest(n.over(), n.under())
        }),
{
    let ghost n: Numeral = Numeral {
        negative: false,
        mantissa: m@,
        scale: places - if exp_minus {
            -e
        } else {
            e as int
        },
    };
    proof {
        lemma_pow10_monotonic(0, n.scale as nat);
        assert(pow10(0) == 1);
    }
    if m.is_zero() {
        proof {
            if n.scale < 0 {
                assert(0 * pow10((-n.scale) as nat) == 0);
            }
            if n.scale > 0 {
                lemma_pow10_monotonic(0, n.scale as nat);
            }
            assert(0 * pow2(GRAIN as nat) == 0);
            lemma_nearest_to_nothing(0, n.under());
        }
        return Quantity::default();
    }
    let one: Natural = Natural::from_u64(1);
    if exp_minus {
        let near: u128 = digits as u128 + MARGIN as u128;
        let size: u128 = match exp {
            Some(size) => size,
            None => near,
        };
        if size >= near {
            proof {
                lemma_far_below(m@, digits as nat, n.scale as nat);
            }
            return Quantity::default();
        }
        let mut parts: Natural = one;
        shift_tens(&mut parts, places as u128 + size);
        proof {
            lemma_pow10_monotonic(0, (places + size) as nat);
            assert(1 * pow10((places + size) as nat) == pow10((places + size) as nat));
        }
        return nearest_to(m, &parts);
    }
    let far: u128 = places as u128 + MARGIN as u128;
    let size: u128 = match exp {
        Some(size) => size,
        None => far,
    };
    if size >= far {
        proof {
            lemma_far_above(m@, (-n.scale) as nat);
        }
        return Quantity::from_bits(INFINITY);
    }
    if size >= places as u128 {
        let mut whole: Natural = m.copy();
        shift_tens(&mut whole, size - places as u128);
        proof {
            assert((size - places) as nat == (-n.scale) as nat);
            assert(m@ * 1 == m@);
        }
        nearest_to(&whole, &one)
    } else {
        let mut parts: Natural = one;
        shift_tens(&mut parts, places as u128 - size);
        proof {
            lemma_pow10_monotonic(0, (places - size) as nat);
            assert(1 * pow10((places - size) as nat) == pow10((places - size) as nat));
        }
        nearest_to(m, &parts)
    }
}

/// Whether `s` spells `name` from `from` on.
fn is_spelled(s: &str, from: usize, name: &str) -> (r: bool)
    requires
        from <= s@.len(),
    ensures
        r == spells(s@, from as int, name@),
{
    let n: usize = name.unicode_len();
    let len: usize = s.unicode_len();
    if len - from != n {
        return false;
    }
    let mut i: usize = 0;
    while i < n
        invariant
            i <= n == name@.len(),
            len == s@.len(),
            len - from == n,
            from <= len,
            forall|k: int| 0 <= k < i ==> is_letter(#[trigger] s@[from + k], name@[k]),
        decreases n - i,
    {
        let c: char = s.get_char(from + i);
        let letter: char = name.get_char(i);
        if !(c == letter || ('A' <= c && c <= 'Z' && c as u32 + 32 == letter as u32)) {
            assert(!is_letter(s@[from + i], name@[i as int]));
            return false;
        }
        i = i + 1;
    }
    true
}

/// The size of an exponent.
spec fn size_of(e: int) -> nat {
    if e < 0 {
        (-e) as nat
    } else {
        e as nat
    }
}

/// Reads the exponent from `i` on: whether it carries a minus sign, and its size.
fn scan_exponent(s: &str, i: usize) -> (r: Option<(bool, Option<u128>)>)
    requires
        i <= s@.len(),
    ensures
        r is Some <==> exponent(s@, i as int) is Some,
        r matches Some(found) ==> {
            let e = exponent(s@, i as int)->0;
            &&& holds(found.1, size_of(e))
            &&& e == if found.0 {
                -size_of(e)
            } else {
                size_of(e) as int
            }
        },
{
    let len: usize = s.unicode_len();
    if i == len {
        return Some((false, Some(0)));
    }
    let c: char = s.get_char(i);
    if c != 'e' && c != 'E' {
        return None;
    }
    let at: usize = i + 1;
    let start: usize = if at < len && (s.get_char(at) == '+' || s.get_char(at) == '-') {
        at + 1
    } else {
        at
    };
    let minus: bool = at < len && s.get_char(at) == '-';
    let (end, size): (usize, Option<u128>) = scan_digits(s, start, Some(0), Ghost(0));
    if end != len || end == start {
        return None;
    }
    Some((minus, size))
}

/// The digits of a mantissa bound its value.
proof fn lemma_mantissa_bound(s: Seq<char>, start: int, whole_end: int, part: int, part_end: int)
    requires
        0 <= start <= whole_end <= part <= part_end <= s.len(),
        whole_end == digits_end(s, start),
        part_end == part || part_end == digits_end(s, part),
    ensures
        digits_value(s, part, part_end, digits_value(s, start, whole_end, 0)) < pow10(
            ((whole_end - start) + (part_end - part)) as nat,
        ),
{
    let whole_value = digits_value(s, start, whole_end, 0);
    let (digits, places) = ((whole_end - start) as nat, (part_end - part) as nat);
    lemma_digits_are_digits(s, start);
    lemma_digits_are_digits(s, part);
    lemma_digits_bound(s, start, whole_end, 0);
    lemma_digits_bound(s, part, part_end, whole_value);
    let (a, b) = (pow10(digits), pow10(places));
    assert((0 + 1) * a == a);
    lemma_pow10_adds(digits, places);
    assert((whole_value + 1) * b <= a * b) by (nonlinear_arith)
        requires
            whole_value + 1 <= a,
    ;
}

/// Reads the one-minute load average, the first word of `/proc/loadavg`: the amount nearest to
/// the decimal numeral there, or infinity or what is no number by their names. Returns `None`
/// where the word is none of these.
pub fn parse_loadavg_1m(text: &str) -> (r: Option<Quantity>)
    ensures
        r == amount_of(first_word(text@)),
{
    let s: &str = take_first_word(text);
    let len: usize = s.unicode_len();
    let negative: bool = len > 0 && s.get_char(0) == '-';
    let start: usize = if len > 0 && (s.get_char(0) == '+' || s.get_char(0) == '-') {
        1
    } else {
        0
    };
    if is_spelled(s, start, "inf") || is_spelled(s, start, "infinity") {
        return Some(Quantity::from_bits(INFINITY).signed(negative));
    }
    if is_spelled(s, start, "nan") {
        return Some(Quantity::from_bits(NOT_A_NUMBER).signed(negative));
    }
    let mut mantissa: Natural = Natural::from_u64(0);
    let whole_end: usize = scan_mantissa(s, start, &mut mantissa);
    let has_point: bool = whole_end < len && s.get_char(whole_end) == '.';
    let ghost whole_value: nat = mantissa@;
    let part: usize = if has_point {
        whole_end + 1
    } else {
        whole_end
    };
    let part_end: usize = if has_point {
        scan_mantissa(s, part, &mut mantissa)
    } else {
        whole_end
    };
    let places: usize = part_end - part;
    if whole_end == start && places == 0 {
        return None;
    }
    let (exp_minus, exp): (bool, Option<u128>) = match scan_exponent(s, part_end) {
        Some(found) => found,
        None => return None,
    };
    let ghost e: nat = size_of(exponent(s@, part_end as int)->0);
    let ghost n: Numeral = Numeral {
        negative,
        mantissa: mantissa@,
        scale: places - if exp_minus {
            -e
        } else {
            e as int
        },
    };
    let digits: usize = (whole_end - start) + places;
    proof {
        assert(mantissa@ == digits_value(s@, part as int, part_end as int, whole_value));
        assert(numeral(s@) == Some(n));
        lemma_mantissa_bound(s@, start as int, whole_end as int, part as int, part_end as int);
    }
    Some(value_of(&mantissa, digits, places, exp, exp_minus, Ghost(e)).signed(negative))
}

} // verus!

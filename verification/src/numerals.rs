//! What the numerals of a table say: reading one back gives the number that was written.

use vstd::arithmetic::power2::{lemma_pow2_pos, pow2};
use vstd::prelude::*;

use crate::platform::loadavg::{digits_end, digits_value, is_digit, numeral, past_sign};
use crate::quantity::{lemma_pow10_monotonic, round_half_even, Quantity};
use crate::record::clock;
use crate::rounding::lemma_rounding_breaks_ties;
use crate::table::lemma_rounding_is_nearest;
use crate::text::{decimal, digit, padded, pow10};

verus! {

/// Text of decimal digits alone.
pub open spec fn all_digits(text: Seq<char>) -> bool {
    forall|i: int| 0 <= i < text.len() ==> '0' <= #[trigger] text[i] <= '9'
}

/// The number that the digits of `text` stand for.
pub open spec fn read(text: Seq<char>) -> nat {
    digits_value(text, 0, text.len() as int, 0)
}

/// What is read of some digits depends on these digits alone.
proof fn lemma_same_digits(s: Seq<char>, i: int, end: int, t: Seq<char>, k: int, high: nat)
    requires
        0 <= i <= end <= s.len(),
        0 <= k,
        k + (end - i) <= t.len(),
        forall|j: int| 0 <= j < end - i ==> #[trigger] s[i + j] == t[k + j],
    ensures
        digits_value(s, i, end, high) == digits_value(t, k, k + (end - i), high),
    decreases end - i,
{
    if i < end {
        assert(s[i + 0] == t[k + 0]);
        let more = (high * 10 + (s[i] as u32 - '0' as u32)) as nat;
        assert forall|j: int| 0 <= j < end - (i + 1) implies #[trigger] s[i + 1 + j] == t[k + 1
            + j] by {
            assert(s[i + (1 + j)] == t[k + (1 + j)]);
        }
        lemma_same_digits(s, i + 1, end, t, k + 1, more);
    }
}

/// One more digit is ten times as much and the digit.
proof fn lemma_one_more_digit(s: Seq<char>, i: int, end: int, high: nat)
    requires
        0 <= i <= end < s.len(),
        forall|j: int| i <= j <= end ==> '0' <= #[trigger] s[j] <= '9',
    ensures
        digits_value(s, i, end + 1, high) == digits_value(s, i, end, high) * 10 + (s[end] as u32
            - '0' as u32),
    decreases end - i,
{
    if i < end {
        lemma_one_more_digit(s, i + 1, end, (high * 10 + (s[i] as u32 - '0' as u32)) as nat);
    } else {
        reveal_with_fuel(digits_value, 3);
    }
}

/// A digit put behind a numeral.
proof fn lemma_read_push(text: Seq<char>, d: nat)
    requires
        all_digits(text),
        d < 10,
    ensures
        all_digits(text.push(digit(d))),
        read(text.push(digit(d))) == read(text) * 10 + d,
{
    let longer = text.push(digit(d));
    let n = text.len() as int;
    assert forall|j: int| 0 <= j <= n implies '0' <= #[trigger] longer[j] <= '9' by {
        if j < n {
            assert(longer[j] == text[j]);
        }
    }
    lemma_one_more_digit(longer, 0, n, 0);
    lemma_same_digits(longer, 0, n, text, 0, 0);
}

/// The numeral of an integer reads as that integer, and begins with a zero only where it is zero.
pub proof fn lemma_decimal_reads_back(n: nat)
    ensures
        decimal(n).len() >= 1,
        all_digits(decimal(n)),
        read(decimal(n)) == n,
        decimal(n)[0] == '0' ==> n == 0 && decimal(n).len() == 1,
    decreases n,
{
    let nothing = Seq::<char>::empty();
    if n < 10 {
        assert(nothing.push(digit(n)) =~= decimal(n));
        lemma_read_push(nothing, n);
    } else {
        lemma_decimal_reads_back(n / 10);
        lemma_read_push(decimal(n / 10), n % 10);
        assert(decimal(n)[0] == decimal(n / 10)[0]);
    }
}

/// A padded numeral has its width, and reads as the last digits of the integer.
#[verifier::spinoff_prover]
pub proof fn lemma_padded_reads_back(n: nat, width: nat)
    ensures
        padded(n, width).len() == width,
        all_digits(padded(n, width)),
        read(padded(n, width)) == n % pow10(width),
        pow10(width) > 0,
    decreases width,
{
    if width == 0 {
        assert(n % 1 == 0);
    } else {
        let w = (width - 1) as nat;
        lemma_padded_reads_back(n / 10, w);
        lemma_read_push(padded(n / 10, w), n % 10);
        let p = pow10(w);
        let q = (n / 10) / p;
        let r = (n / 10) % p;
        vstd::arithmetic::div_mod::lemma_fundamental_div_mod((n / 10) as int, p as int);
        vstd::arithmetic::div_mod::lemma_fundamental_div_mod(n as int, 10);
        assert(n == q * (10 * p) + (r * 10 + n % 10)) by (nonlinear_arith)
            requires
                n == 10 * (n / 10) + n % 10,
                n / 10 == p * q + r,
        ;
        vstd::arithmetic::div_mod::lemma_fundamental_div_mod_converse(
            n as int,
            (10 * p) as int,
            q as int,
            (r * 10 + n % 10) as int,
        );
    }
}

/// Ten to the power `k` is ten times ten and so on.
pub proof fn lemma_pow10_is_a_power(k: nat)
    ensures
        pow10(k) == vstd::arithmetic::power::pow(10, k),
    decreases k,
{
    reveal(vstd::arithmetic::power::pow);
    if k > 0 {
        lemma_pow10_is_a_power((k - 1) as nat);
    }
}

/// Digits behind others.
proof fn lemma_read_behind(text: Seq<char>, k: int, high: nat)
    requires
        0 <= k <= text.len(),
        all_digits(text),
    ensures
        digits_value(text, 0, k, high) == high * pow10(k as nat) + digits_value(text, 0, k, 0),
    decreases k,
{
    if k == 0 {
        assert(high * 1 == high);
    } else {
        lemma_read_behind(text, k - 1, high);
        lemma_one_more_digit(text, 0, k - 1, high);
        lemma_one_more_digit(text, 0, k - 1, 0);
        let p = pow10((k - 1) as nat);
        assert((high * p) * 10 == high * (10 * p)) by (nonlinear_arith);
    }
}

/// Digits end where they end.
proof fn lemma_digits_run(s: Seq<char>, i: int, end: int)
    requires
        0 <= i <= end <= s.len(),
        forall|j: int| i <= j < end ==> '0' <= #[trigger] s[j] <= '9',
        end == s.len() || !('0' <= s[end] <= '9'),
    ensures
        digits_end(s, i) == end,
    decreases end - i,
{
    if i < end {
        assert(is_digit(s[i]));
        lemma_digits_run(s, i + 1, end);
    }
}

/// Digits with or without a point in front of, among or behind them, behind a sign or not, are a
/// numeral: the digits together, with so many of them behind the point, and negative exactly where
/// the sign is a minus.
#[verifier::spinoff_prover]
pub proof fn lemma_forms_of_numerals(sign: Seq<char>, whole: Seq<char>, point: bool, part: Seq<char>)
    requires
        sign.len() == 0 || sign == seq!['-'] || sign == seq!['+'],
        all_digits(whole),
        all_digits(part),
        whole.len() + part.len() > 0,
        part.len() > 0 ==> point,
    ensures
        ({
            let text = sign + whole + (if point {
                seq!['.'] + part
            } else {
                Seq::empty()
            });
            &&& numeral(text) matches Some(n)
            &&& n.negative == (sign == seq!['-'])
            &&& n.mantissa == read(whole) * pow10(part.len()) + read(part)
            &&& n.scale == part.len()
            &&& past_sign(text, 0) == sign.len()
            &&& text.len() > sign.len()
            &&& text[sign.len() as int] == '.' || '0' <= text[sign.len() as int] <= '9'
        }),
{
    let text = sign + whole + (if point {
        seq!['.'] + part
    } else {
        Seq::empty()
    });
    let start = sign.len() as int;
    let at = start + whole.len();
    let n = part.len() as int;
    if sign.len() > 0 {
        assert(text[0] == sign[0]);
    } else {
        assert(sign != seq!['-']);
    }
    assert forall|i: int| 0 <= i < whole.len() implies #[trigger] text[start + i] == whole[i] by {}
    assert forall|i: int| start <= i < at implies '0' <= #[trigger] text[i] <= '9' by {
        assert(text[start + (i - start)] == whole[i - start]);
    }
    if point {
        assert(text[at] == '.');
    }
    if whole.len() > 0 {
        assert(text[start + 0] == whole[0]);
    }
    assert(past_sign(text, 0) == start);
    lemma_digits_run(text, start, at);
    lemma_same_digits(text, start, at, whole, 0, 0);
    if point {
        assert(text.len() == at + 1 + n);
        assert forall|i: int| 0 <= i < n implies #[trigger] text[at + 1 + i] == part[i] by {}
        assert forall|i: int| at + 1 <= i < text.len() implies '0' <= #[trigger] text[i] <= '9' by {
            assert(text[at + 1 + (i - at - 1)] == part[i - at - 1]);
        }
        lemma_digits_run(text, at + 1, text.len() as int);
        lemma_same_digits(text, at + 1, text.len() as int, part, 0, read(whole));
        lemma_read_behind(part, n, read(whole));
    } else {
        assert(text.len() == at);
        assert(read(whole) * 1 == read(whole));
    }
}

/// An exponent behind a numeral moves its point: to the right by so many places, or to the left
/// where it carries a minus sign.
#[verifier::spinoff_prover]
pub proof fn lemma_exponent_moves_the_point(
    negative: bool,
    whole: Seq<char>,
    part: Seq<char>,
    mark: char,
    down: bool,
    places: Seq<char>,
)
    requires
        all_digits(whole),
        all_digits(part),
        all_digits(places),
        whole.len() > 0,
        places.len() > 0,
        mark == 'e' || mark == 'E',
    ensures
        ({
            let sign = if negative {
                seq!['-']
            } else {
                Seq::empty()
            };
            let behind = if down {
                seq![mark, '-']
            } else {
                seq![mark]
            };
            let text = sign + whole + (seq!['.'] + part) + behind + places;
            &&& numeral(text) matches Some(n)
            &&& n.negative == negative
            &&& n.mantissa == read(whole) * pow10(part.len()) + read(part)
            &&& down ==> n.scale == part.len() + read(places)
            &&& !down ==> n.scale == part.len() - read(places)
        }),
{
    let sign = if negative {
        seq!['-']
    } else {
        Seq::empty()
    };
    let behind = if down {
        seq![mark, '-']
    } else {
        seq![mark]
    };
    let text = sign + whole + (seq!['.'] + part) + behind + places;
    let start = sign.len() as int;
    let point = start + whole.len();
    let n = part.len() as int;
    let stop = point + 1 + n;
    let first = stop + behind.len();
    assert forall|i: int| 0 <= i < whole.len() implies #[trigger] text[start + i] == whole[i] by {}
    assert forall|i: int| start <= i < point implies '0' <= #[trigger] text[i] <= '9' by {
        assert(text[start + (i - start)] == whole[i - start]);
    }
    assert(text[start + 0] == whole[0]);
    assert(past_sign(text, 0) == start);
    assert(text[point] == '.');
    assert forall|i: int| 0 <= i < n implies #[trigger] text[point + 1 + i] == part[i] by {}
    assert forall|i: int| point + 1 <= i < stop implies '0' <= #[trigger] text[i] <= '9' by {
        assert(text[point + 1 + (i - point - 1)] == part[i - point - 1]);
    }
    assert(text[stop] == mark);
    assert(text.len() == first + places.len());
    assert forall|i: int| 0 <= i < places.len() implies #[trigger] text[first + i] == places[i] by {}
    assert forall|i: int| first <= i < text.len() implies '0' <= #[trigger] text[i] <= '9' by {
        assert(text[first + (i - first)] == places[i - first]);
    }
    assert(text[first + 0] == places[0]);
    lemma_digits_run(text, start, point);
    lemma_digits_run(text, point + 1, stop);
    lemma_digits_run(text, first, text.len() as int);
    lemma_same_digits(text, start, point, whole, 0, 0);
    lemma_same_digits(text, point + 1, stop, part, 0, read(whole));
    lemma_read_behind(part, n, read(whole));
    lemma_same_digits(text, first, text.len() as int, places, 0, 0);
    if down {
        assert(text[stop + 1] == '-');
    }
    assert(past_sign(text, stop + 1) == first);
}

/// An amount that is written with `places` digits behind the point reads as the decimal fraction
/// with so many digits that is nearest to it, and of two that are as near as the even one. It is
/// written behind a minus sign exactly where it carries one, without needless zeros in front, and
/// with exactly `places` digits behind the point.
#[verifier::spinoff_prover]
#[verifier::rlimit(40)]
pub proof fn lemma_fixed_reads_back(q: Quantity, places: nat)
    ensures
        q.is_nan() ==> q.fixed(places) == "NaN"@,
        q.is_infinite() && !q.minus() ==> q.fixed(places) == "inf"@,
        q.is_infinite() && q.minus() ==> q.fixed(places) == "-inf"@,
        q.is_finite() ==> ({
            let text = q.fixed(places);
            let start: int = if q.minus() {
                1
            } else {
                0
            };
            let point = if places == 0 {
                text.len() as int
            } else {
                text.len() - places - 1
            };
            let x = q.over() * pow10(places);
            &&& numeral(text) matches Some(n)
            &&& n.negative == q.minus()
            &&& n.scale == places
            &&& 2 * (n.mantissa * pow2(1074)) <= 2 * x + pow2(1074)
            &&& 2 * x <= 2 * (n.mantissa * pow2(1074)) + pow2(1074)
            &&& (2 * (n.mantissa * pow2(1074)) == 2 * x + pow2(1074) || 2 * x == 2 * (n.mantissa
                * pow2(1074)) + pow2(1074)) ==> n.mantissa % 2 == 0
            &&& q.minus() ==> text[0] == '-'
            &&& start < point
            &&& text[start] == '0' ==> point == start + 1
            &&& places > 0 ==> text[point] == '.'
            &&& forall|i: int|
                start <= i < text.len() && i != point ==> '0' <= #[trigger] text[i] <= '9'
        }),
{
    reveal_strlit("-");
    reveal_strlit("inf");
    reveal_strlit("-inf");
    if q.is_infinite() && q.minus() {
        assert("-"@ + "inf"@ =~= "-inf"@);
    }
    if q.is_finite() {
        let g = pow2(1074);
        let x = q.over() * pow10(places);
        let mag = round_half_even(x, g);
        lemma_pow2_pos(1074);
        lemma_rounding_is_nearest(x, g);
        lemma_rounding_breaks_ties(x, g);
        let text = q.fixed(places);
        let start: int = if q.minus() {
            1
        } else {
            0
        };
        let power = pow10(places);
        lemma_pow10_monotonic(0, places);
        let whole = decimal(mag / power);
        let part = padded(mag % power, places);
        lemma_decimal_reads_back(mag / power);
        lemma_padded_reads_back(mag % power, places);
        vstd::arithmetic::div_mod::lemma_fundamental_div_mod(mag as int, power as int);
        vstd::arithmetic::div_mod::lemma_small_mod(mag % power, power);
        if places == 0 {
            assert(power == 1);
            assert(mag / 1 == mag);
        }
        let point = start + whole.len();
        let sign = if q.minus() {
            seq!['-']
        } else {
            Seq::empty()
        };
        lemma_forms_of_numerals(sign, whole, places > 0, part);
        assert("-"@ =~= seq!['-']);
        assert(text =~= sign + whole + (if places > 0 {
            seq!['.'] + part
        } else {
            Seq::empty()
        }));
        assert((mag / power) * power == power * (mag / power)) by (nonlinear_arith);
        assert forall|i: int| start <= i < text.len() && i != point implies '0' <= #[trigger] text[i]
            <= '9' by {
            if i < point {
                assert(text[i] == whole[i - start]);
            } else {
                assert(text[i] == part[i - point - 1]);
            }
        }
    }
}

/// A fixed numeral is longer than a dash.
pub proof fn lemma_fixed_is_no_dash(q: Quantity, places: nat)
    requires
        places > 0,
    ensures
        q.fixed(places) != "-"@,
{
    lemma_fixed_reads_back(q, places);
    reveal_strlit("-");
    reveal_strlit("NaN");
    reveal_strlit("inf");
    reveal_strlit("-inf");
}

/// Every character of a fixed numeral is a digit, a point, a minus sign or a letter.
pub proof fn lemma_fixed_characters(q: Quantity, places: nat)
    ensures
        forall|i: int|
            0 <= i < q.fixed(places).len() ==> {
                let c = #[trigger] q.fixed(places)[i];
                '0' <= c <= '9' || c == '.' || c == '-' || c == 'N' || c == 'a' || c == 'i' || c
                    == 'n' || c == 'f'
            },
{
    lemma_fixed_reads_back(q, places);
    reveal_strlit("NaN");
    reveal_strlit("inf");
    reveal_strlit("-inf");
}

/// The whole units of an amount are the largest integer that does not exceed it, at least zero and
/// at most the largest `u64`.
pub proof fn lemma_whole_is_the_floor(q: Quantity)
    ensures
        q.is_nan() || q.minus() ==> q.whole() == 0,
        q.is_infinite() && !q.minus() ==> q.whole() == u64::MAX,
        q.is_finite() && !q.minus() ==> q.whole() as nat * pow2(1074) <= q.over(),
        q.is_finite() && !q.minus() && q.whole() < u64::MAX ==> q.over() < (q.whole() as nat + 1)
            * pow2(1074),
{
    let g = pow2(1074);
    lemma_pow2_pos(1074);
    if q.is_finite() && !q.minus() {
        let units = q.over() / g;
        vstd::arithmetic::div_mod::lemma_fundamental_div_mod(q.over() as int, g as int);
        assert(units * g <= q.over() && q.over() < (units + 1) * g) by (nonlinear_arith)
            requires
                q.over() == g * units + q.over() % g,
                0 <= q.over() % g < g,
        ;
        if units > u64::MAX {
            let top = u64::MAX as nat;
            assert(top * g <= units * g) by (nonlinear_arith)
                requires
                    top <= units,
            ;
        }
    }
}

/// A time of day or more: what stands in front of the hours.
pub open spec fn day_prefix(total: nat) -> Seq<char> {
    if total < 86_400 {
        Seq::empty()
    } else if total < 2 * 86_400 {
        "1 day, "@
    } else {
        decimal(total / 86_400) + " days, "@
    }
}

/// A clock reading tells the seconds that it was made from: two digits of seconds, two of minutes,
/// the hours of the day, and the days where there are any.
pub proof fn lemma_clock_reads_back(total: nat)
    ensures
        ({
            let text = clock(total);
            let n = text.len() as int;
            let front = day_prefix(total).len() as int;
            &&& front + 7 <= n
            &&& text.take(front) == day_prefix(total)
            &&& text[n - 3] == ':'
            &&& text[n - 6] == ':'
            &&& all_digits(text.subrange(n - 2, n))
            &&& all_digits(text.subrange(n - 5, n - 3))
            &&& all_digits(text.subrange(front, n - 6))
            &&& read(text.subrange(n - 2, n)) == total % 60
            &&& read(text.subrange(n - 5, n - 3)) == (total / 60) % 60
            &&& read(text.subrange(front, n - 6)) == (total / 3600) % 24
            &&& text.subrange(front, n - 6) == decimal((total / 3600) % 24)
        }),
{
    let rem = total % 86_400;
    let (h, m, s) = (rem / 3600, (rem % 3600) / 60, rem % 60);
    lemma_time_of_day(total);
    lemma_decimal_reads_back(h);
    lemma_padded_reads_back(m, 2);
    lemma_padded_reads_back(s, 2);
    assert(pow10(2) == 100) by {
        reveal_with_fuel(pow10, 3);
    }
    lemma_clock_in_pieces(total, decimal(h), padded(m, 2), padded(s, 2));
}

#[verifier::spinoff_prover]
proof fn lemma_time_of_day(total: nat)
    ensures
        (total % 86_400) / 3600 == (total / 3600) % 24,
        ((total % 86_400) % 3600) / 60 == (total / 60) % 60,
        (total % 86_400) % 60 == total % 60,
        (total / 60) % 60 < 60,
        total / 86_400 == 0 <==> total < 86_400,
        total / 86_400 == 1 <==> 86_400 <= total < 2 * 86_400,
{
    let rem = (total % 86_400) as int;
    let days = (total / 86_400) as int;
    let (h, m, s) = (rem / 3600, (rem % 3600) / 60, rem % 60);
    assert(rem == 3600 * h + 60 * m + s && 0 <= h < 24 && 0 <= m < 60 && 0 <= s < 60);
    let t = total as int;
    assert(t == 86_400 * days + rem);
    vstd::arithmetic::div_mod::lemma_fundamental_div_mod_converse(
        t,
        3600,
        24 * days + h,
        60 * m + s,
    );
    vstd::arithmetic::div_mod::lemma_fundamental_div_mod_converse(24 * days + h, 24, days, h);
    vstd::arithmetic::div_mod::lemma_fundamental_div_mod_converse(
        t,
        60,
        1440 * days + 60 * h + m,
        s,
    );
    vstd::arithmetic::div_mod::lemma_fundamental_div_mod_converse(
        1440 * days + 60 * h + m,
        60,
        24 * days + h,
        m,
    );
}

/// Hours, minutes and seconds stand where they are looked for.
#[verifier::spinoff_prover]
proof fn lemma_clock_in_pieces(total: nat, h: Seq<char>, m: Seq<char>, s: Seq<char>)
    requires
        h == decimal((total % 86_400) / 3600),
        m == padded(((total % 86_400) % 3600) / 60, 2),
        s == padded((total % 86_400) % 60, 2),
        h.len() >= 1,
        m.len() == 2,
        s.len() == 2,
    ensures
        ({
            let text = clock(total);
            let n = text.len() as int;
            let front = day_prefix(total).len() as int;
            &&& front + 7 <= n
            &&& text.take(front) == day_prefix(total)
            &&& text[n - 3] == ':'
            &&& text[n - 6] == ':'
            &&& text.subrange(n - 2, n) == s
            &&& text.subrange(n - 5, n - 3) == m
            &&& text.subrange(front, n - 6) == h
        }),
{
    lemma_time_of_day(total);
    let front = day_prefix(total);
    let body = h + ":"@ + m + ":"@ + s;
    assert(clock(total) == front + body) by {
        if total < 86_400 {
            assert(front + body =~= body);
        } else if total >= 2 * 86_400 {
            assert(decimal(total / 86_400) + " days, "@ + body =~= front + body);
        }
    }
    lemma_slices(front, h, m, s);
}

#[verifier::spinoff_prover]
proof fn lemma_slices(front: Seq<char>, h: Seq<char>, m: Seq<char>, s: Seq<char>)
    requires
        h.len() >= 1,
        m.len() == 2,
        s.len() == 2,
    ensures
        ({
            let text = front + (h + ":"@ + m + ":"@ + s);
            let n = text.len() as int;
            let f = front.len() as int;
            &&& f + 7 <= n
            &&& text.take(f) == front
            &&& text[n - 3] == ':'
            &&& text[n - 6] == ':'
            &&& text.subrange(n - 2, n) == s
            &&& text.subrange(n - 5, n - 3) == m
            &&& text.subrange(f, n - 6) == h
        }),
{
    reveal_strlit(":");
    let text = front + (h + ":"@ + m + ":"@ + s);
    let n = text.len() as int;
    let f = front.len() as int;
    assert(text.take(f) =~= front);
    assert(text.subrange(n - 2, n) =~= s);
    assert(text.subrange(n - 5, n - 3) =~= m);
    assert(text.subrange(f, n - 6) =~= h);
}

} // verus!

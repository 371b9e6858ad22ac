//! What is read as a load average, and what is not.

use vstd::arithmetic::power2::pow2;
use vstd::prelude::*;

use super::loadavg::{
    amount_of, digits_end, exponent, first_word, is_digit, is_letter, is_white,
    lemma_digits_are_digits, lemma_digits_end_is_past, numeral, past_point, past_sign, spells,
    white_end, word_end,
};
use crate::numerals::{
    all_digits, lemma_decimal_reads_back, lemma_forms_of_numerals, lemma_padded_reads_back, read,
};
use crate::quantity::{nearest, Quantity, INFINITY, NOT_A_NUMBER};
use crate::rounding::{lemma_nearest_is_near, lemma_turning_keeps_the_value};
use crate::text::{decimal, padded, pow10};

verus! {

/// Spaces, tabs and line ends are white space, and no other character that ASCII prints is.
pub proof fn lemma_ascii_white_space(c: char)
    ensures
        c == ' ' || c == '\t' || c == '\n' || c == '\r' ==> is_white(c),
        '!' <= c <= '~' ==> !is_white(c),
{
}

proof fn lemma_white_run(text: Seq<char>, i: int, end: int)
    requires
        0 <= i <= end <= text.len(),
        forall|j: int| i <= j < end ==> is_white(#[trigger] text[j]),
        end == text.len() || !is_white(text[end]),
    ensures
        white_end(text, i) == end,
    decreases end - i,
{
    if i < end {
        assert(is_white(text[i]));
        lemma_white_run(text, i + 1, end);
    }
}

proof fn lemma_word_run(text: Seq<char>, i: int, end: int)
    requires
        0 <= i <= end <= text.len(),
        forall|j: int| i <= j < end ==> !is_white(#[trigger] text[j]),
        end == text.len() || is_white(text[end]),
    ensures
        word_end(text, i) == end,
    decreases end - i,
{
    if i < end {
        assert(!is_white(text[i]));
        lemma_word_run(text, i + 1, end);
    }
}

/// The first word of a text is what stands between the white space in front and the next white
/// space, or the end.
pub proof fn lemma_first_word(lead: Seq<char>, word: Seq<char>, rest: Seq<char>)
    requires
        forall|i: int| 0 <= i < lead.len() ==> is_white(#[trigger] lead[i]),
        forall|i: int| 0 <= i < word.len() ==> !is_white(#[trigger] word[i]),
        word.len() > 0 || rest.len() == 0,
        rest.len() == 0 || is_white(rest[0]),
    ensures
        first_word(lead + word + rest) == word,
{
    let text = lead + word + rest;
    let (a, b) = (lead.len() as int, (lead.len() + word.len()) as int);
    assert forall|j: int| 0 <= j < a implies is_white(#[trigger] text[j]) by {
        assert(text[j] == lead[j]);
    }
    assert forall|j: int| a <= j < b implies !is_white(#[trigger] text[j]) by {
        assert(text[j] == word[j - a]);
    }
    if b < text.len() {
        assert(text[b] == rest[0]);
    }
    lemma_white_run(text, 0, a);
    lemma_word_run(text, a, b);
    assert(text.subrange(a, b) =~= word);
}

/// A word that is a numeral and no name is read as the amount nearest to its value: its digits,
/// divided by ten for each place behind the point, or times ten for each place that is missing.
pub proof fn lemma_numeral_is_read(word: Seq<char>)
    requires
        !spells(word, past_sign(word, 0), "inf"@),
        !spells(word, past_sign(word, 0), "infinity"@),
        !spells(word, past_sign(word, 0), "nan"@),
    ensures
        numeral(word) is None ==> amount_of(word) is None,
        numeral(word) matches Some(n) ==> {
            let up = if n.scale < 0 {
                pow10((-n.scale) as nat)
            } else {
                1
            };
            let d = if n.scale > 0 {
                pow10(n.scale as nat)
            } else {
                1
            };
            let x = (n.mantissa * up) * pow2(1074);
            &&& amount_of(word) matches Some(q)
            &&& q.minus() == n.negative
            &&& q.is_finite() ==> 0x20_0000_0000_0000 * (q.over() * d) <= 0x20_0000_0000_0000 * x
                + x + 0x10_0000_0000_0000 * d
            &&& q.is_finite() ==> 0x20_0000_0000_0000 * x <= 0x20_0000_0000_0000 * (q.over() * d)
                + x + 0x10_0000_0000_0000 * d
            &&& !q.is_finite() ==> q.is_infinite() && x >= d * pow2(2097)
        },
{
    if let Some(n) = numeral(word) {
        if n.scale > 0 {
            lemma_padded_reads_back(0, n.scale as nat);
        }
        assert(n.mantissa * 1 == n.mantissa);
        lemma_nearest_is_near(n.over(), n.under());
        lemma_turning_keeps_the_value(nearest(n.over(), n.under()));
    }
}

/// A decimal fraction is read as the amount nearest to it: digits with or without a point in front
/// of, among or behind them, behind a sign or not.
#[verifier::spinoff_prover]
pub proof fn lemma_decimal_fraction_is_read(
    sign: Seq<char>,
    whole: Seq<char>,
    point: bool,
    part: Seq<char>,
)
    requires
        sign.len() == 0 || sign == seq!['-'] || sign == seq!['+'],
        all_digits(whole),
        all_digits(part),
        whole.len() + part.len() > 0,
        part.len() > 0 ==> point,
    ensures
        ({
            let word = sign + whole + (if point {
                seq!['.'] + part
            } else {
                Seq::empty()
            });
            let d = pow10(part.len());
            let x = (read(whole) * d + read(part)) * pow2(1074);
            &&& amount_of(word) matches Some(q)
            &&& q.minus() == (sign == seq!['-'])
            &&& q.is_finite() ==> 0x20_0000_0000_0000 * (q.over() * d) <= 0x20_0000_0000_0000 * x
                + x + 0x10_0000_0000_0000 * d
            &&& q.is_finite() ==> 0x20_0000_0000_0000 * x <= 0x20_0000_0000_0000 * (q.over() * d)
                + x + 0x10_0000_0000_0000 * d
            &&& !q.is_finite() ==> q.is_infinite() && x >= d * pow2(2097)
        }),
{
    let word = sign + whole + (if point {
        seq!['.'] + part
    } else {
        Seq::empty()
    });
    lemma_forms_of_numerals(sign, whole, point, part);
    let n = numeral(word)->0;
    let start = sign.len() as int;
    reveal_strlit("inf");
    reveal_strlit("infinity");
    reveal_strlit("nan");
    assert(!is_letter(word[start + 0], 'i'));
    assert(!is_letter(word[start + 0], 'n'));
    assert(!spells(word, start, "inf"@));
    assert(!spells(word, start, "infinity"@));
    assert(!spells(word, start, "nan"@));
    assert(n.mantissa * 1 == n.mantissa);
    assert(pow10(0) == 1);
    lemma_numeral_is_read(word);
}

proof fn lemma_capital(c: char, letter: char)
    requires
        c as u32 + 32 == letter as u32,
        'a' <= letter <= 'z',
    ensures
        is_letter(c, letter),
{
}

/// The names of infinity and of what is no number, in small letters or capitals and behind a sign
/// or not, are read as such.
pub proof fn lemma_names_are_read(sign: Seq<char>, name: Seq<char>, word: Seq<char>)
    requires
        sign.len() == 0 || sign == seq!['-'] || sign == seq!['+'],
        name == "inf"@ || name == "infinity"@ || name == "nan"@,
        word.len() == sign.len() + name.len(),
        word.take(sign.len() as int) == sign,
        forall|i: int|
            0 <= i < name.len() ==> (#[trigger] word[sign.len() + i] == name[i] || word[sign.len()
                + i] as u32 + 32 == name[i] as u32),
    ensures
        amount_of(word) matches Some(q) && {
            &&& q.minus() == (sign == seq!['-'])
            &&& name != "nan"@ ==> q.is_infinite()
            &&& name == "nan"@ ==> q.is_nan()
        },
{
    reveal_strlit("inf");
    reveal_strlit("infinity");
    reveal_strlit("nan");
    let start = sign.len() as int;
    if start > 0 {
        assert(word[0] == word.take(start)[0]);
    } else {
        assert(sign != seq!['-']);
        assert(word[start + 0] == name[0] || word[start + 0] as u32 + 32 == name[0] as u32);
    }
    assert(past_sign(word, 0) == start);
    assert forall|k: int| 0 <= k < name.len() implies is_letter(#[trigger] word[start + k], name[k]) by {
        let c = word[start + k];
        assert(word[sign.len() + k] == c);
        if c != name[k] {
            assert(c as u32 + 32 == name[k] as u32);
            lemma_capital(c, name[k]);
        }
    }
    assert(spells(word, start, name));
    if name == "nan"@ {
        assert(!is_letter(word[start + 0], 'i')) by {
            assert(is_letter(word[start + 0], name[0]));
        }
        assert(!spells(word, start, "inf"@));
        assert(!spells(word, start, "infinity"@));
    }
    lemma_turning_keeps_the_value(Quantity { bits: INFINITY });
    lemma_turning_keeps_the_value(Quantity { bits: NOT_A_NUMBER });
}

/// The one-minute load average is the first of the numbers in the file: two digits behind the
/// point, behind any number of digits, and whatever follows it is not looked at.
#[verifier::spinoff_prover]
pub proof fn lemma_load_average_is_the_first_number(whole: nat, cents: nat, rest: Seq<char>)
    requires
        cents < 100,
        rest.len() == 0 || is_white(rest[0]),
    ensures
        ({
            let text = decimal(whole) + (seq!['.'] + padded(cents, 2)) + rest;
            let x = (whole * 100 + cents) * pow2(1074);
            &&& amount_of(first_word(text)) matches Some(q)
            &&& !q.minus()
            &&& q.is_finite() ==> 0x20_0000_0000_0000 * (q.over() * 100) <= 0x20_0000_0000_0000 * x
                + x + 0x10_0000_0000_0000 * 100
            &&& q.is_finite() ==> 0x20_0000_0000_0000 * x <= 0x20_0000_0000_0000 * (q.over() * 100)
                + x + 0x10_0000_0000_0000 * 100
        }),
{
    let (a, b) = (decimal(whole), padded(cents, 2));
    lemma_decimal_reads_back(whole);
    lemma_padded_reads_back(cents, 2);
    assert(pow10(2) == 100) by {
        reveal_with_fuel(pow10, 3);
    }
    let nothing = Seq::<char>::empty();
    lemma_decimal_fraction_is_read(nothing, a, true, b);
    let word = a + (seq!['.'] + b);
    assert(nothing + a + (seq!['.'] + b) =~= word);
    assert forall|i: int| 0 <= i < word.len() implies !is_white(#[trigger] word[i]) by {
        if i < a.len() {
            assert(word[i] == a[i]);
        } else if i > a.len() {
            assert(word[i] == b[i - a.len() - 1]);
        }
        lemma_ascii_white_space(word[i]);
    }
    lemma_first_word(nothing, word, rest);
    assert(nothing + word + rest =~= word + rest);
}

/// Whatever is read as an amount, but for the names of infinity and of what is no number, is made
/// of digits, signs, a point and an `e`, and holds a digit. So a word with another character, or
/// without a digit, is no amount, and neither is no word at all.
#[verifier::spinoff_prover]
pub proof fn lemma_amounts_are_made_of_digits(word: Seq<char>)
    requires
        amount_of(word) is Some,
        !spells(word, past_sign(word, 0), "inf"@),
        !spells(word, past_sign(word, 0), "infinity"@),
        !spells(word, past_sign(word, 0), "nan"@),
    ensures
        forall|i: int|
            0 <= i < word.len() ==> {
                let c = #[trigger] word[i];
                '0' <= c <= '9' || c == '+' || c == '-' || c == '.' || c == 'e' || c == 'E'
            },
        exists|i: int| 0 <= i < word.len() && '0' <= #[trigger] word[i] <= '9',
{
    let start = past_sign(word, 0);
    let whole_end = digits_end(word, start);
    let part = past_point(word, whole_end);
    lemma_digits_end_is_past(word, start);
    lemma_digits_end_is_past(word, part);
    lemma_digits_are_digits(word, start);
    lemma_digits_are_digits(word, part);
    lemma_digits_end_in_text(word, start);
    lemma_digits_end_in_text(word, part);
    let part_end = if part > whole_end {
        digits_end(word, part)
    } else {
        whole_end
    };
    assert(exponent(word, part_end) is Some);
    if whole_end > start {
        assert(is_digit(word[start]));
    } else {
        assert(is_digit(word[part]));
    }
    if part_end < word.len() {
        let second = past_sign(word, part_end + 1);
        lemma_digits_are_digits(word, second);
    }
    assert forall|i: int| 0 <= i < word.len() implies ({
        let c = #[trigger] word[i];
        '0' <= c <= '9' || c == '+' || c == '-' || c == '.' || c == 'e' || c == 'E'
    }) by {
        let c = word[i];
        if start <= i < whole_end {
            assert(is_digit(word[i]));
        } else if part <= i < part_end {
            assert(is_digit(word[i]));
        } else if part_end < word.len() && past_sign(word, part_end + 1) <= i {
            assert(is_digit(word[i]));
        }
    }
}

proof fn lemma_digits_end_in_text(s: Seq<char>, i: int)
    requires
        0 <= i <= s.len(),
    ensures
        digits_end(s, i) <= s.len(),
    decreases s.len() - i,
{
    if i < s.len() && is_digit(s[i]) {
        lemma_digits_end_in_text(s, i + 1);
    }
}

} // verus!

//! Decimal numerals and tab-separated lines.

use vstd::prelude::*;
use vstd::string::{StrSliceExecFns, StringExecFns};

use crate::natural::Natural;

verus! {

/// The decimal digit that stands for `d`, for `d` below ten.
pub open spec fn digit(d: nat) -> char {
    if d == 0 {
        '0'
    } else if d == 1 {
        '1'
    } else if d == 2 {
        '2'
    } else if d == 3 {
        '3'
    } else if d == 4 {
        '4'
    } else if d == 5 {
        '5'
    } else if d == 6 {
        '6'
    } else if d == 7 {
        '7'
    } else if d == 8 {
        '8'
    } else {
        '9'
    }
}

/// The shortest decimal numeral of `n`.
pub open spec fn decimal(n: nat) -> Seq<char>
    decreases n,
{
    if n < 10 {
        seq![digit(n)]
    } else {
        decimal(n / 10).push(digit(n % 10))
    }
}

/// The last `width` decimal digits of `n`, with leading zeros where `n` has fewer.
pub open spec fn padded(n: nat, width: nat) -> Seq<char>
    decreases width,
{
    if width == 0 {
        Seq::empty()
    } else {
        padded(n / 10, (width - 1) as nat).push(digit(n % 10))
    }
}

/// Ten to the power `k`.
pub open spec fn pow10(k: nat) -> nat
    decreases k,
{
    if k == 0 {
        1
    } else {
        10 * pow10((k - 1) as nat)
    }
}

/// Appends the digit `d` to `out`.
fn push_digit(out: &mut String, d: u8)
    requires
        d < 10,
    ensures
        final(out)@ == old(out)@.push(digit(d as nat)),
{
    proof {
        reveal_strlit("0");
        reveal_strlit("1");
        reveal_strlit("2");
        reveal_strlit("3");
        reveal_strlit("4");
        reveal_strlit("5");
        reveal_strlit("6");
        reveal_strlit("7");
        reveal_strlit("8");
        reveal_strlit("9");
    }
    let piece: &str = match d {
        0 => "0",
        1 => "1",
        2 => "2",
        3 => "3",
        4 => "4",
        5 => "5",
        6 => "6",
        7 => "7",
        8 => "8",
        _ => "9",
    };
    out.append(piece);
    assert(old(out)@ + piece@ =~= old(out)@.push(digit(d as nat)));
}

/// Appends the decimal numeral of `n` to `out`.
pub fn push_decimal(out: &mut String, n: u128)
    ensures
        final(out)@ == old(out)@ + decimal(n as nat),
    decreases n,
{
    if n >= 10 {
        push_decimal(out, n / 10);
    }
    push_digit(out, (n % 10) as u8);
    assert(final(out)@ =~= old(out)@ + decimal(n as nat));
}

/// Appends the decimal numeral of `n` to `out`.
pub fn push_natural(out: &mut String, n: &Natural)
    ensures
        final(out)@ == old(out)@ + decimal(n@),
    decreases n@,
{
    let mut higher: Natural = n.copy();
    let last: u32 = higher.divide(10);
    if !higher.is_zero() {
        push_natural(out, &higher);
    }
    push_digit(out, last as u8);
    assert(final(out)@ =~= old(out)@ + decimal(n@));
}

/// Appends the last `width` decimal digits of `n` to `out`.
pub fn push_padded(out: &mut String, n: u128, width: u32)
    ensures
        final(out)@ == old(out)@ + padded(n as nat, width as nat),
    decreases width,
{
    if width > 0 {
        push_padded(out, n / 10, width - 1);
        push_digit(out, (n % 10) as u8);
    }
    assert(final(out)@ =~= old(out)@ + padded(n as nat, width as nat));
}

/// Whether two texts are the same.
pub fn same_text(a: &str, b: &str) -> (r: bool)
    ensures
        r == (a@ == b@),
{
    let n: usize = a.unicode_len();
    if n != b.unicode_len() {
        return false;
    }
    let mut i: usize = 0;
    while i < n
        invariant
            i <= n == a@.len() == b@.len(),
            forall|k: int| 0 <= k < i ==> a@[k] == b@[k],
        decreases n - i,
    {
        if a.get_char(i) != b.get_char(i) {
            return false;
        }
        i = i + 1;
    }
    assert(a@ =~= b@);
    true
}

/// The cells of a line, each set off from the one before it by `sep`.
pub open spec fn joined(cells: Seq<Seq<char>>, sep: char) -> Seq<char>
    decreases cells.len(),
{
    if cells.len() == 0 {
        Seq::empty()
    } else if cells.len() == 1 {
        cells[0]
    } else {
        joined(cells.drop_last(), sep).push(sep) + cells.last()
    }
}

/// The pieces of `text` between the occurrences of `sep`: one more than there are occurrences.
pub open spec fn fields(text: Seq<char>, sep: char) -> Seq<Seq<char>>
    decreases text.len(),
{
    if text.len() == 0 {
        seq![Seq::empty()]
    } else {
        let before = fields(text.drop_last(), sep);
        if text.last() == sep {
            before.push(Seq::empty())
        } else {
            before.update(before.len() - 1, before.last().push(text.last()))
        }
    }
}

/// A text has at least one field.
pub proof fn lemma_fields_nonempty(text: Seq<char>, sep: char)
    ensures
        fields(text, sep).len() >= 1,
    decreases text.len(),
{
    if text.len() > 0 {
        lemma_fields_nonempty(text.drop_last(), sep);
    }
}

/// Text without the separator, put behind a text, lengthens its last field.
proof fn lemma_fields_extend(text: Seq<char>, cell: Seq<char>, sep: char)
    requires
        !cell.contains(sep),
    ensures
        fields(text + cell, sep) == fields(text, sep).update(
            fields(text, sep).len() - 1,
            fields(text, sep).last() + cell,
        ),
    decreases cell.len(),
{
    lemma_fields_nonempty(text, sep);
    if cell.len() == 0 {
        assert(text + cell =~= text);
        assert(fields(text, sep).last() + cell =~= fields(text, sep).last());
        assert(fields(text + cell, sep) =~= fields(text, sep).update(
            fields(text, sep).len() - 1,
            fields(text, sep).last() + cell,
        ));
    } else {
        let front = cell.drop_last();
        assert forall|c: char| front.contains(c) implies cell.contains(c) by {
            let i = choose|i: int| 0 <= i < front.len() && front[i] == c;
            assert(cell[i] == c);
        }
        lemma_fields_extend(text, front, sep);
        assert((text + cell).drop_last() =~= text + front);
        assert((text + cell).last() == cell.last());
        assert(cell.contains(cell[cell.len() - 1]));
        assert((fields(text, sep).last() + front).push(cell.last()) =~= fields(text, sep).last()
            + cell);
        assert(fields(text + cell, sep) =~= fields(text, sep).update(
            fields(text, sep).len() - 1,
            fields(text, sep).last() + cell,
        ));
    }
}

/// A line splits back into the cells it was joined from, where no cell holds the separator.
pub proof fn lemma_fields_of_joined(cells: Seq<Seq<char>>, sep: char)
    requires
        cells.len() >= 1,
        forall|i: int| 0 <= i < cells.len() ==> !(#[trigger] cells[i]).contains(sep),
    ensures
        fields(joined(cells, sep), sep) == cells,
    decreases cells.len(),
{
    let last = cells.last();
    if cells.len() == 1 {
        let nothing = Seq::<char>::empty();
        lemma_fields_extend(nothing, last, sep);
        assert(nothing + last =~= last);
        assert(fields(nothing, sep) =~= seq![nothing]);
        assert(fields(last, sep) =~= cells);
    } else {
        let front = cells.drop_last();
        lemma_fields_of_joined(front, sep);
        let head = joined(front, sep).push(sep);
        assert(head.drop_last() =~= joined(front, sep));
        assert(fields(head, sep) == front.push(Seq::empty()));
        lemma_fields_extend(head, last, sep);
        assert(Seq::<char>::empty() + last =~= last);
        assert(fields(head + last, sep) =~= cells);
    }
}

/// The fields of a text, joined again, are the text.
#[verifier::spinoff_prover]
pub proof fn lemma_joined_back(text: Seq<char>, sep: char)
    ensures
        joined(fields(text, sep), sep) == text,
        fields(text, sep).len() >= 1,
    decreases text.len(),
{
    if text.len() > 0 {
        let front = text.drop_last();
        let before = fields(front, sep);
        let after = fields(text, sep);
        lemma_joined_back(front, sep);
        if text.last() == sep {
            assert(after.drop_last() =~= before);
            assert(joined(after, sep) =~= text);
        } else {
            assert(after.drop_last() =~= before.drop_last());
            assert(after.last() == before.last().push(text.last()));
            if before.len() > 1 {
                assert(joined(after, sep) == joined(before.drop_last(), sep).push(sep)
                    + after.last());
                assert(joined(before, sep) == joined(before.drop_last(), sep).push(sep)
                    + before.last());
            }
            assert(joined(after, sep) =~= joined(before, sep).push(text.last()));
            assert(front.push(text.last()) =~= text);
        }
    }
}

/// No field of a text holds the separator, and there is one field more than there are separators.
#[verifier::spinoff_prover]
pub proof fn lemma_fields_hold_no_separator(text: Seq<char>, sep: char)
    ensures
        forall|i: int|
            0 <= i < fields(text, sep).len() ==> !(#[trigger] fields(text, sep)[i]).contains(sep),
        fields(text, sep).len() == text.filter(|c: char| c == sep).len() + 1,
    decreases text.len(),
{
    reveal(Seq::filter);
    if text.len() > 0 {
        let front = text.drop_last();
        let before = fields(front, sep);
        let after = fields(text, sep);
        lemma_fields_hold_no_separator(front, sep);
        lemma_fields_nonempty(front, sep);
        assert forall|i: int| 0 <= i < after.len() implies !(#[trigger] after[i]).contains(sep) by {
            if i < before.len() {
                assert(!before[i].contains(sep));
                if i == before.len() - 1 && text.last() != sep {
                    let longer = before.last().push(text.last());
                    assert(after[i] == longer);
                    if longer.contains(sep) {
                        let k = choose|k: int| 0 <= k < longer.len() && longer[k] == sep;
                        assert(before.last()[k] == sep);
                    }
                }
            }
        }
    }
}

} // verus!

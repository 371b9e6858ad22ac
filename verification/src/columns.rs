//! Which value stands in which column of a row, which field of the summary, and which cell of the
//! Markdown table.

use vstd::prelude::*;

use crate::format::{barred, markdown_document, markdown_row, written, OutputFormat, MARKDOWN_RULE};
use crate::numerals::{
    day_prefix, lemma_clock_reads_back, lemma_decimal_reads_back, lemma_fixed_characters,
    lemma_fixed_is_no_dash,
};
use crate::quantity::Quantity;
use crate::record::{
    clock, mebibyte_phrase, optional_cell, BenchmarkRecord, TickRecord, TSV_HEADER,
};
use crate::table::{
    lemma_document_lines, lemma_header_columns, lemma_row_columns, lemma_trace_row_columns,
};
use crate::text::{decimal, fields, joined, lemma_fields_of_joined, lemma_joined_back};

verus! {

/// `cell` shows `value` to two places, and is a dash exactly where there is none: a value of zero
/// is shown as a number.
pub open spec fn shows_optional(cell: Seq<char>, value: Option<Quantity>) -> bool {
    &&& value matches Some(v) ==> cell == v.fixed(2)
    &&& value is None ==> cell == seq!['-']
    &&& cell == seq!['-'] <==> value is None
}

proof fn lemma_optional_cell_shows(value: Option<Quantity>)
    ensures
        shows_optional(optional_cell(value), value),
{
    reveal_strlit("-");
    assert("-"@ =~= seq!['-']);
    if let Some(v) = value {
        lemma_fixed_is_no_dash(v, 2);
    }
}

/// Each column of a data row shows the value that the header names: the running time to four
/// places and on the clock, memory and I/O to two places or as a dash where they are missing, and
/// load and CPU time to two places. Where no data was collected, the first two columns stand and
/// the other eight read `NA`.
#[verifier::spinoff_prover]
pub proof fn lemma_columns_of_a_row(record: BenchmarkRecord)
    ensures
        ({
            let row = fields(joined(record.cells(), '\t'), '\t');
            &&& row.len() == 10
            &&& row[0] == record.running_time.fixed(4)
            &&& row[1] == clock(record.running_time.whole() as nat)
            &&& record.data_collected ==> {
                &&& shows_optional(row[2], record.max_rss)
                &&& shows_optional(row[3], record.max_vms)
                &&& shows_optional(row[4], record.max_uss)
                &&& shows_optional(row[5], record.max_pss)
                &&& shows_optional(row[6], record.io_in)
                &&& shows_optional(row[7], record.io_out)
                &&& row[8] == record.mean_load.fixed(2)
                &&& row[9] == record.cpu_time.fixed(2)
            }
            &&& !record.data_collected ==> forall|i: int|
                2 <= i < 10 ==> #[trigger] row[i] == seq!['N', 'A']
        }),
{
    reveal_strlit("NA");
    assert("NA"@ =~= seq!['N', 'A']);
    lemma_row_columns(record);
    lemma_header_columns();
    lemma_optional_cell_shows(record.max_rss);
    lemma_optional_cell_shows(record.max_vms);
    lemma_optional_cell_shows(record.max_uss);
    lemma_optional_cell_shows(record.max_pss);
    lemma_optional_cell_shows(record.io_in);
    lemma_optional_cell_shows(record.io_out);
}

/// Each column of a trace row shows the value that the trace header names.
pub proof fn lemma_columns_of_a_trace_row(tick: TickRecord)
    ensures
        ({
            let row = fields(joined(tick.cells(), '\t'), '\t');
            &&& row.len() == 9
            &&& row[0] == tick.elapsed.fixed(4)
            &&& row[1] == tick.rss.fixed(2)
            &&& row[2] == tick.vms.fixed(2)
            &&& shows_optional(row[3], tick.uss)
            &&& shows_optional(row[4], tick.pss)
            &&& shows_optional(row[5], tick.io_in)
            &&& shows_optional(row[6], tick.io_out)
            &&& row[7] == tick.cpu_time.fixed(2)
            &&& row[8] == decimal(tick.n_procs as nat)
        }),
{
    lemma_trace_row_columns(tick);
    lemma_optional_cell_shows(tick.uss);
    lemma_optional_cell_shows(tick.pss);
    lemma_optional_cell_shows(tick.io_in);
    lemma_optional_cell_shows(tick.io_out);
}

/// Records whose columns agree have the same document, whatever else they hold, and a document has
/// the header in its first line, the row in its second, and ends there with a newline.
pub proof fn lemma_document_is_header_and_row(record: BenchmarkRecord, other: BenchmarkRecord)
    ensures
        fields(record.document(), '\n').len() == 3,
        fields(record.document(), '\n')[0] == TSV_HEADER@,
        fields(record.document(), '\n')[1] == joined(record.cells(), '\t'),
        fields(record.document(), '\n')[2].len() == 0,
        record.running_time == other.running_time && !record.data_collected
            && !other.data_collected ==> record.document() == other.document(),
        record.running_time == other.running_time && record.data_collected && other.data_collected
            && record.max_rss == other.max_rss && record.max_vms == other.max_vms
            && record.max_uss == other.max_uss && record.max_pss == other.max_pss && record.io_in
            == other.io_in && record.io_out == other.io_out && record.mean_load == other.mean_load
            && record.cpu_time == other.cpu_time ==> record.document() == other.document(),
{
    lemma_document_lines(record);
}

/// What is written is the table where a table is asked for, whatever the JSON text, and the JSON
/// text and nothing else where JSON is asked for.
pub proof fn lemma_written_is_what_was_asked_for(
    record: BenchmarkRecord,
    json: Seq<char>,
    other: Seq<char>,
)
    ensures
        written(record, OutputFormat::Json, json) == json,
        written(record, OutputFormat::Tsv, json) == written(record, OutputFormat::Tsv, other),
        fields(written(record, OutputFormat::Tsv, json), '\n').len() == 3,
        fields(written(record, OutputFormat::Tsv, json), '\n')[0] == TSV_HEADER@,
        fields(written(record, OutputFormat::Tsv, json), '\n')[1] == joined(record.cells(), '\t'),
        fields(written(record, OutputFormat::Tsv, json), '\n')[2].len() == 0,
{
    lemma_document_lines(record);
}

/// `text` holds no `c`.
spec fn without(text: Seq<char>, c: char) -> bool {
    forall|i: int| 0 <= i < text.len() ==> #[trigger] text[i] != c
}

proof fn lemma_without_concat(a: Seq<char>, b: Seq<char>, c: char)
    requires
        without(a, c),
        without(b, c),
    ensures
        without(a + b, c),
{
    assert forall|i: int| 0 <= i < (a + b).len() implies #[trigger] (a + b)[i] != c by {
        if i < a.len() {
            assert((a + b)[i] == a[i]);
        } else {
            assert((a + b)[i] == b[i - a.len()]);
        }
    }
}

/// `cell` shows `value` in mebibytes to one place, or is a dash exactly where there is none.
pub open spec fn shows_mebibytes(cell: Seq<char>, value: Option<Quantity>) -> bool {
    &&& value matches Some(v) ==> cell == v.fixed(1) + "MiB"@
    &&& value is None ==> cell == seq!['-']
    &&& cell == seq!['-'] <==> value is None
}

proof fn lemma_phrase_shows(value: Option<Quantity>)
    ensures
        shows_mebibytes(mebibyte_phrase(value), value),
        without(mebibyte_phrase(value), ' '),
{
    reveal_strlit("-");
    reveal_strlit("MiB");
    assert("-"@ =~= seq!['-']);
    if let Some(v) = value {
        lemma_fixed_characters(v, 1);
        assert(without(v.fixed(1), ' ')) by {
            assert forall|i: int| 0 <= i < v.fixed(1).len() implies #[trigger] v.fixed(1)[i] != ' ' by {
                let c = v.fixed(1)[i];
            }
        }
        lemma_without_concat(v.fixed(1), "MiB"@, ' ');
        assert((v.fixed(1) + "MiB"@).len() >= 3);
    }
}

proof fn lemma_no_space_in(q: Quantity, places: nat, unit: Seq<char>, name: Seq<char>)
    requires
        without(unit, ' '),
        without(name, ' '),
    ensures
        without(name + q.fixed(places) + unit, ' '),
{
    lemma_fixed_characters(q, places);
    assert forall|i: int| 0 <= i < q.fixed(places).len() implies #[trigger] q.fixed(places)[i]
        != ' ' by {
        let c = q.fixed(places)[i];
    }
    lemma_without_concat(name, q.fixed(places), ' ');
    lemma_without_concat(name + q.fixed(places), unit, ' ');
}

#[verifier::spinoff_prover]
proof fn lemma_seven_joined(
    a: Seq<char>,
    b: Seq<char>,
    c: Seq<char>,
    d: Seq<char>,
    e: Seq<char>,
    f: Seq<char>,
    g: Seq<char>,
)
    ensures
        joined(seq![a, b, c, d, e, f, g], ' ') == a.push(' ') + b.push(' ') + c.push(' ') + d.push(
            ' ',
        ) + e.push(' ') + f.push(' ') + g,
{
    let p1 = seq![a];
    let p2 = seq![a, b];
    let p3 = seq![a, b, c];
    let p4 = seq![a, b, c, d];
    let p5 = seq![a, b, c, d, e];
    let p6 = seq![a, b, c, d, e, f];
    let p7 = seq![a, b, c, d, e, f, g];
    assert(p7.drop_last() =~= p6);
    assert(p6.drop_last() =~= p5);
    assert(p5.drop_last() =~= p4);
    assert(p4.drop_last() =~= p3);
    assert(p3.drop_last() =~= p2);
    assert(p2.drop_last() =~= p1);
    assert(joined(p1, ' ') == a);
    assert(joined(p2, ' ') == joined(p1, ' ').push(' ') + b);
    assert(joined(p3, ' ') == joined(p2, ' ').push(' ') + c);
    assert(joined(p3, ' ') =~= a.push(' ') + b.push(' ') + c);
    assert(joined(p4, ' ') =~= a.push(' ') + b.push(' ') + c.push(' ') + d);
    assert(joined(p5, ' ') =~= a.push(' ') + b.push(' ') + c.push(' ') + d.push(' ') + e);
    assert(joined(p6, ' ') =~= a.push(' ') + b.push(' ') + c.push(' ') + d.push(' ') + e.push(' ')
        + f);
    assert(joined(p7, ' ') =~= a.push(' ') + b.push(' ') + c.push(' ') + d.push(' ') + e.push(' ')
        + f.push(' ') + g);
}

/// A text that is taken apart between two of its characters.
proof fn lemma_regrouped(head: Seq<char>, end: Seq<char>, next: Seq<char>, tail: Seq<char>)
    ensures
        head + (end.push(' ') + next) + tail == (head + end).push(' ') + (next + tail),
{
    assert(head + (end.push(' ') + next) + tail =~= (head + end).push(' ') + (next + tail));
}

#[verifier::spinoff_prover]
proof fn lemma_summary_in_pieces(record: BenchmarkRecord)
    ensures
        record.summary() == ("wall="@ + record.running_time.fixed(2) + "s"@).push(' ') + ("cpu="@
            + record.cpu_time.fixed(2) + "s"@).push(' ') + ("mean_load="@ + record.mean_load.fixed(
            0,
        ) + "%"@).push(' ') + ("max_rss="@ + mebibyte_phrase(record.max_rss)).push(' ') + (
        "max_uss="@ + mebibyte_phrase(record.max_uss)).push(' ') + ("io_in="@ + mebibyte_phrase(
            record.io_in,
        )).push(' ') + ("io_out="@ + mebibyte_phrase(record.io_out)),
{
    assert("s cpu="@ == "s"@.push(' ') + "cpu="@) by {
        reveal_strlit("s cpu=");
        reveal_strlit("s");
        reveal_strlit("cpu=");
        assert("s cpu="@ =~= "s"@.push(' ') + "cpu="@);
    }
    assert("s mean_load="@ == "s"@.push(' ') + "mean_load="@) by {
        reveal_strlit("s mean_load=");
        reveal_strlit("s");
        reveal_strlit("mean_load=");
        assert("s mean_load="@ =~= "s"@.push(' ') + "mean_load="@);
    }
    assert("% max_rss="@ == "%"@.push(' ') + "max_rss="@) by {
        reveal_strlit("% max_rss=");
        reveal_strlit("%");
        reveal_strlit("max_rss=");
        assert("% max_rss="@ =~= "%"@.push(' ') + "max_rss="@);
    }
    let nothing = Seq::<char>::empty();
    assert(" max_uss="@ == nothing.push(' ') + "max_uss="@) by {
        reveal_strlit(" max_uss=");
        reveal_strlit("max_uss=");
        assert(" max_uss="@ =~= nothing.push(' ') + "max_uss="@);
    }
    assert(" io_in="@ == nothing.push(' ') + "io_in="@) by {
        reveal_strlit(" io_in=");
        reveal_strlit("io_in=");
        assert(" io_in="@ =~= nothing.push(' ') + "io_in="@);
    }
    assert(" io_out="@ == nothing.push(' ') + "io_out="@) by {
        reveal_strlit(" io_out=");
        reveal_strlit("io_out=");
        assert(" io_out="@ =~= nothing.push(' ') + "io_out="@);
    }
    let (a, b, c) = (
        record.running_time.fixed(2),
        record.cpu_time.fixed(2),
        record.mean_load.fixed(0),
    );
    let (d, e) = (mebibyte_phrase(record.max_rss), mebibyte_phrase(record.max_uss));
    let (f, g) = (mebibyte_phrase(record.io_in), mebibyte_phrase(record.io_out));
    let t1 = "wall="@ + a;
    lemma_regrouped(t1, "s"@, "cpu="@, b);
    let w = (t1 + "s"@).push(' ');
    let t2 = w + ("cpu="@ + b);
    lemma_regrouped(t2, "s"@, "mean_load="@, c);
    assert(t2 + "s"@ =~= w + ("cpu="@ + b + "s"@));
    assert((t2 + "s"@).push(' ') =~= w + ("cpu="@ + b + "s"@).push(' '));
    let x = w + ("cpu="@ + b + "s"@).push(' ');
    let t3 = x + ("mean_load="@ + c);
    lemma_regrouped(t3, "%"@, "max_rss="@, d);
    assert((t3 + "%"@).push(' ') =~= x + ("mean_load="@ + c + "%"@).push(' '));
    let y = x + ("mean_load="@ + c + "%"@).push(' ');
    let t4 = y + ("max_rss="@ + d);
    lemma_regrouped(t4, nothing, "max_uss="@, e);
    assert((t4 + nothing).push(' ') =~= y + ("max_rss="@ + d).push(' '));
    let z = y + ("max_rss="@ + d).push(' ');
    let t5 = z + ("max_uss="@ + e);
    lemma_regrouped(t5, nothing, "io_in="@, f);
    assert((t5 + nothing).push(' ') =~= z + ("max_uss="@ + e).push(' '));
    let u = z + ("max_uss="@ + e).push(' ');
    let t6 = u + ("io_in="@ + f);
    lemma_regrouped(t6, nothing, "io_out="@, g);
    assert((t6 + nothing).push(' ') =~= u + ("io_in="@ + f).push(' '));
}

/// Split at its spaces, the summary is seven fields, each a name, an equals sign and the value
/// that bears that name: wall and CPU time in seconds to two places, the load in whole percent,
/// and memory and I/O in mebibytes to one place, with a dash exactly where there is no value.
#[verifier::spinoff_prover]
pub proof fn lemma_fields_of_the_summary(record: BenchmarkRecord)
    ensures
        ({
            let parts = fields(record.summary(), ' ');
            &&& parts.len() == 7
            &&& parts[0] == "wall="@ + record.running_time.fixed(2) + "s"@
            &&& parts[1] == "cpu="@ + record.cpu_time.fixed(2) + "s"@
            &&& parts[2] == "mean_load="@ + record.mean_load.fixed(0) + "%"@
            &&& parts[3].len() > 8 && parts[3].take(8) == "max_rss="@ && shows_mebibytes(
                parts[3].skip(8),
                record.max_rss,
            )
            &&& parts[4].len() > 8 && parts[4].take(8) == "max_uss="@ && shows_mebibytes(
                parts[4].skip(8),
                record.max_uss,
            )
            &&& parts[5].len() > 6 && parts[5].take(6) == "io_in="@ && shows_mebibytes(
                parts[5].skip(6),
                record.io_in,
            )
            &&& parts[6].len() > 7 && parts[6].take(7) == "io_out="@ && shows_mebibytes(
                parts[6].skip(7),
                record.io_out,
            )
        }),
{
    reveal_strlit("wall=");
    reveal_strlit("s");
    reveal_strlit("%");
    reveal_strlit("cpu=");
    reveal_strlit("mean_load=");
    reveal_strlit("max_rss=");
    reveal_strlit("max_uss=");
    reveal_strlit("io_in=");
    reveal_strlit("io_out=");
    let wall = "wall="@ + record.running_time.fixed(2) + "s"@;
    let cpu = "cpu="@ + record.cpu_time.fixed(2) + "s"@;
    let load = "mean_load="@ + record.mean_load.fixed(0) + "%"@;
    let rss = "max_rss="@ + mebibyte_phrase(record.max_rss);
    let uss = "max_uss="@ + mebibyte_phrase(record.max_uss);
    let read = "io_in="@ + mebibyte_phrase(record.io_in);
    let write = "io_out="@ + mebibyte_phrase(record.io_out);
    lemma_phrase_shows(record.max_rss);
    lemma_phrase_shows(record.max_uss);
    lemma_phrase_shows(record.io_in);
    lemma_phrase_shows(record.io_out);
    lemma_no_space_in(record.running_time, 2, "s"@, "wall="@);
    lemma_no_space_in(record.cpu_time, 2, "s"@, "cpu="@);
    lemma_no_space_in(record.mean_load, 0, "%"@, "mean_load="@);
    lemma_without_concat("max_rss="@, mebibyte_phrase(record.max_rss), ' ');
    lemma_without_concat("max_uss="@, mebibyte_phrase(record.max_uss), ' ');
    lemma_without_concat("io_in="@, mebibyte_phrase(record.io_in), ' ');
    lemma_without_concat("io_out="@, mebibyte_phrase(record.io_out), ' ');
    let parts = seq![wall, cpu, load, rss, uss, read, write];
    assert forall|i: int| 0 <= i < parts.len() implies !(#[trigger] parts[i]).contains(' ') by {
        assert(without(parts[i], ' '));
    }
    lemma_fields_of_joined(parts, ' ');
    lemma_seven_joined(wall, cpu, load, rss, uss, read, write);
    lemma_summary_in_pieces(record);
    assert(rss.take(8) =~= "max_rss="@);
    assert(rss.skip(8) =~= mebibyte_phrase(record.max_rss));
    assert(uss.take(8) =~= "max_uss="@);
    assert(uss.skip(8) =~= mebibyte_phrase(record.max_uss));
    assert(read.take(6) =~= "io_in="@);
    assert(read.skip(6) =~= mebibyte_phrase(record.io_in));
    assert(write.take(7) =~= "io_out="@);
    assert(write.skip(7) =~= mebibyte_phrase(record.io_out));
    lemma_phrase_is_not_empty(record.max_rss);
    lemma_phrase_is_not_empty(record.max_uss);
    lemma_phrase_is_not_empty(record.io_in);
    lemma_phrase_is_not_empty(record.io_out);
}

proof fn lemma_phrase_is_not_empty(value: Option<Quantity>)
    ensures
        mebibyte_phrase(value).len() > 0,
{
    reveal_strlit("-");
    reveal_strlit("MiB");
}

/// The summary depends on the seven values that it names and on nothing else.
pub proof fn lemma_summary_shows_only_what_it_names(record: BenchmarkRecord, other: BenchmarkRecord)
    requires
        record.running_time == other.running_time,
        record.cpu_time == other.cpu_time,
        record.mean_load == other.mean_load,
        record.max_rss == other.max_rss,
        record.max_uss == other.max_uss,
        record.io_in == other.io_in,
        record.io_out == other.io_out,
    ensures
        record.summary() == other.summary(),
{
}

proof fn lemma_barred_concat(a: Seq<char>, b: Seq<char>)
    ensures
        barred(a + b) == barred(a) + barred(b),
    decreases b.len(),
{
    if b.len() == 0 {
        assert(a + b =~= a);
        assert(barred(a) + barred(b) =~= barred(a));
    } else {
        let front = b.drop_last();
        assert((a + b).drop_last() =~= a + front);
        assert((a + b).last() == b.last());
        lemma_barred_concat(a, front);
        assert(barred(a + b) =~= barred(a) + barred(b));
    }
}

proof fn lemma_tab_is_a_bar()
    ensures
        barred(seq!['\t']) == " | "@,
{
    let tab = seq!['\t'];
    assert(tab.drop_last() =~= Seq::empty());
    assert(barred(tab.drop_last()) =~= Seq::empty());
    assert(tab.last() == '\t');
    assert(barred(tab) =~= " | "@);
}

proof fn lemma_nothing_to_bar(text: Seq<char>)
    requires
        without(text, '\t'),
    ensures
        barred(text) == text,
    decreases text.len(),
{
    if text.len() > 0 {
        let front = text.drop_last();
        assert(without(front, '\t')) by {
            assert forall|i: int| 0 <= i < front.len() implies #[trigger] front[i] != '\t' by {
                assert(front[i] == text[i]);
            }
        }
        lemma_nothing_to_bar(front);
        assert(text[text.len() - 1] != '\t');
        assert(barred(text) =~= text);
    }
}

/// The pieces of a Markdown row between its bars: each cell with a space on either side, and
/// nothing in front of the first bar and behind the last.
pub open spec fn boxed(cells: Seq<Seq<char>>) -> Seq<Seq<char>> {
    Seq::new(
        cells.len() + 2,
        |i: int|
            if i == 0 || i == cells.len() + 1 {
                Seq::empty()
            } else {
                seq![' '] + cells[i - 1] + seq![' ']
            },
    )
}

#[verifier::spinoff_prover]
proof fn lemma_boxed_row(cells: Seq<Seq<char>>)
    requires
        cells.len() >= 1,
        forall|i: int| 0 <= i < cells.len() ==> without(#[trigger] cells[i], '\t'),
    ensures
        "| "@ + barred(joined(cells, '\t')) + seq![' '] == joined(boxed(cells).drop_last(), '|'),
    decreases cells.len(),
{
    reveal_strlit("| ");
    reveal_strlit(" | ");
    let last = cells.last();
    assert(without(cells[cells.len() - 1], '\t'));
    lemma_nothing_to_bar(last);
    let open = boxed(cells).drop_last();
    if cells.len() == 1 {
        let nothing = Seq::<char>::empty();
        assert(open.len() == 2);
        assert(open.drop_last() =~= seq![nothing]);
        assert(open.last() == seq![' '] + last + seq![' ']);
        assert(joined(seq![nothing], '|') == nothing);
        assert(joined(open, '|') == joined(open.drop_last(), '|').push('|') + open.last());
        assert(joined(cells, '\t') == cells[0]);
        assert("| "@ =~= seq!['|', ' ']);
        assert(nothing.push('|') + (seq![' '] + last + seq![' ']) =~= seq!['|', ' '] + last + seq![
            ' ',
        ]);
    } else {
        let front = cells.drop_last();
        assert forall|i: int| 0 <= i < front.len() implies without(#[trigger] front[i], '\t') by {
            assert(front[i] == cells[i]);
        }
        lemma_boxed_row(front);
        let head = joined(front, '\t');
        let tab = seq!['\t'];
        assert(joined(cells, '\t') =~= head + (tab + last));
        lemma_barred_concat(head, tab + last);
        lemma_barred_concat(tab, last);
        lemma_tab_is_a_bar();
        assert(open.drop_last() =~= boxed(front).drop_last());
        assert(open.last() == seq![' '] + last + seq![' ']);
        assert(joined(open, '|') == joined(open.drop_last(), '|').push('|') + open.last());
        assert("| "@ + barred(joined(cells, '\t')) + seq![' '] =~= joined(open, '|'));
    }
}

proof fn lemma_markdown_row_is_boxed(cells: Seq<Seq<char>>)
    requires
        cells.len() >= 1,
        forall|i: int| 0 <= i < cells.len() ==> without(#[trigger] cells[i], '\t'),
    ensures
        markdown_row(joined(cells, '\t')) == joined(boxed(cells), '|').push('\n'),
{
    reveal_strlit(" |\n");
    lemma_boxed_row(cells);
    let open = boxed(cells).drop_last();
    assert(joined(boxed(cells), '|') == joined(open, '|').push('|') + Seq::<char>::empty());
    assert(markdown_row(joined(cells, '\t')) =~= joined(boxed(cells), '|').push('\n'));
}

/// A joined line holds no character that neither its cells nor its separators are.
proof fn lemma_joined_without(cells: Seq<Seq<char>>, sep: char, c: char)
    requires
        sep != c,
        forall|i: int| 0 <= i < cells.len() ==> without(#[trigger] cells[i], c),
    ensures
        without(joined(cells, sep), c),
    decreases cells.len(),
{
    if cells.len() == 1 {
        assert(without(cells[0], c));
    } else if cells.len() > 1 {
        let front = cells.drop_last();
        assert forall|i: int| 0 <= i < front.len() implies without(#[trigger] front[i], c) by {
            assert(front[i] == cells[i]);
        }
        lemma_joined_without(front, sep, c);
        assert(without(cells[cells.len() - 1], c));
        assert(without(joined(front, sep).push(sep), c));
        lemma_without_concat(joined(front, sep).push(sep), cells.last(), c);
    }
}

proof fn lemma_boxed_without(cells: Seq<Seq<char>>, c: char)
    requires
        c != ' ',
        forall|i: int| 0 <= i < cells.len() ==> without(#[trigger] cells[i], c),
    ensures
        forall|i: int| 0 <= i < boxed(cells).len() ==> without(#[trigger] boxed(cells)[i], c),
{
    assert forall|i: int| 0 <= i < boxed(cells).len() implies without(
        #[trigger] boxed(cells)[i],
        c,
    ) by {
        if 0 < i <= cells.len() {
            let cell = cells[i - 1];
            assert(without(cell, c));
            lemma_without_concat(seq![' '], cell, c);
            lemma_without_concat(seq![' '] + cell, seq![' '], c);
        }
    }
}

proof fn lemma_bar_free_fixed(q: Quantity, places: nat)
    ensures
        without(q.fixed(places), '|'),
        without(q.fixed(places), '\t'),
        without(q.fixed(places), '\n'),
{
    lemma_fixed_characters(q, places);
    assert forall|i: int| 0 <= i < q.fixed(places).len() implies (#[trigger] q.fixed(places)[i])
        != '|' && q.fixed(places)[i] != '\t' && q.fixed(places)[i] != '\n' by {
        let c = q.fixed(places)[i];
    }
}

proof fn lemma_bar_free_optional(value: Option<Quantity>)
    ensures
        without(optional_cell(value), '|'),
        without(optional_cell(value), '\t'),
        without(optional_cell(value), '\n'),
{
    reveal_strlit("-");
    if let Some(v) = value {
        lemma_bar_free_fixed(v, 2);
    }
}

#[verifier::spinoff_prover]
proof fn lemma_bar_free_clock(total: nat)
    ensures
        without(clock(total), '|'),
        without(clock(total), '\t'),
        without(clock(total), '\n'),
{
    reveal_strlit("1 day, ");
    reveal_strlit(" days, ");
    lemma_clock_reads_back(total);
    lemma_decimal_reads_back(total / 86_400);
    let text = clock(total);
    let front = day_prefix(total);
    let n = text.len() as int;
    let f = front.len() as int;
    assert forall|i: int| 0 <= i < n implies #[trigger] text[i] != '|' && text[i] != '\t'
        && text[i] != '\n' by {
        if i < f {
            assert(text[i] == text.take(f)[i]);
            assert(text[i] == front[i]);
            if total >= 2 * 86_400 {
                let days = decimal(total / 86_400);
                if i < days.len() {
                    assert(front[i] == days[i]);
                } else {
                    assert(front[i] == " days, "@[i - days.len()]);
                }
            }
        } else if i < n - 6 {
            assert(text[i] == text.subrange(f, n - 6)[i - f]);
        } else if n - 6 < i < n - 3 {
            assert(text[i] == text.subrange(n - 5, n - 3)[i - (n - 5)]);
        } else if i > n - 3 {
            assert(text[i] == text.subrange(n - 2, n)[i - (n - 2)]);
        }
    }
}

proof fn lemma_bar_free_cells(record: BenchmarkRecord)
    ensures
        record.cells().len() == 10,
        forall|i: int|
            0 <= i < record.cells().len() ==> without(#[trigger] record.cells()[i], '|')
                && without(record.cells()[i], '\t') && without(record.cells()[i], '\n'),
{
    reveal_strlit("NA");
    lemma_bar_free_fixed(record.running_time, 4);
    lemma_bar_free_clock(record.running_time.whole() as nat);
    lemma_bar_free_optional(record.max_rss);
    lemma_bar_free_optional(record.max_vms);
    lemma_bar_free_optional(record.max_uss);
    lemma_bar_free_optional(record.max_pss);
    lemma_bar_free_optional(record.io_in);
    lemma_bar_free_optional(record.io_out);
    lemma_bar_free_fixed(record.mean_load, 2);
    lemma_bar_free_fixed(record.cpu_time, 2);
}

proof fn lemma_split_boxed(cells: Seq<Seq<char>>)
    requires
        forall|i: int|
            0 <= i < cells.len() ==> without(#[trigger] cells[i], '|') && without(cells[i], '\n'),
    ensures
        fields(joined(boxed(cells), '|'), '|') == boxed(cells),
        without(joined(boxed(cells), '|'), '\n'),
{
    lemma_boxed_without(cells, '|');
    lemma_boxed_without(cells, '\n');
    assert forall|i: int| 0 <= i < boxed(cells).len() implies !(#[trigger] boxed(
        cells,
    )[i]).contains('|') by {
        assert(without(boxed(cells)[i], '|'));
    }
    lemma_fields_of_joined(boxed(cells), '|');
    lemma_joined_without(boxed(cells), '|', '\n');
}

#[verifier::spinoff_prover]
proof fn lemma_rule_is_boxed()
    ensures
        MARKDOWN_RULE@ == joined(boxed(Seq::new(10, |i: int| seq!['-', '-', '-'])), '|').push('\n'),
{
    reveal_strlit("| --- | --- | --- | --- | --- | --- | --- | --- | --- | --- |\n");
    reveal_strlit(" |\n");
    let dashes = Seq::new(10, |i: int| seq!['-', '-', '-']);
    lemma_markdown_row_is_boxed(dashes);
    let row = joined(dashes, '\t');
    lemma_dashed(10);
    assert(row == Seq::new(39, |i: int| if i % 4 == 3 { '\t' } else { '-' }));
    lemma_dashes_barred(10);
    reveal_strlit("| ");
    assert(MARKDOWN_RULE@ =~= markdown_row(row));
}

/// `n` cells of three dashes, joined by tabs.
proof fn lemma_dashed(n: nat)
    requires
        1 <= n,
    ensures
        joined(Seq::new(n, |i: int| seq!['-', '-', '-']), '\t') == Seq::new(
            (4 * n - 1) as nat,
            |i: int|
                if i % 4 == 3 {
                    '\t'
                } else {
                    '-'
                },
        ),
    decreases n,
{
    let cells = Seq::new(n, |i: int| seq!['-', '-', '-']);
    let want = Seq::new(
        (4 * n - 1) as nat,
        |i: int|
            if i % 4 == 3 {
                '\t'
            } else {
                '-'
            },
    );
    if n == 1 {
        assert(joined(cells, '\t') =~= want);
    } else {
        lemma_dashed((n - 1) as nat);
        assert(cells.drop_last() =~= Seq::new((n - 1) as nat, |i: int| seq!['-', '-', '-']));
        assert(joined(cells, '\t') =~= want);
    }
}

/// The same cells with bars between them.
#[verifier::spinoff_prover]
proof fn lemma_dashes_barred(n: nat)
    requires
        1 <= n,
    ensures
        barred(joined(Seq::new(n, |i: int| seq!['-', '-', '-']), '\t')) == Seq::new(
            (6 * n - 3) as nat,
            |i: int|
                if i % 6 < 3 {
                    '-'
                } else if i % 6 == 4 {
                    '|'
                } else {
                    ' '
                },
        ),
    decreases n,
{
    reveal_strlit(" | ");
    let cells = Seq::new(n, |i: int| seq!['-', '-', '-']);
    let want = Seq::new(
        (6 * n - 3) as nat,
        |i: int|
            if i % 6 < 3 {
                '-'
            } else if i % 6 == 4 {
                '|'
            } else {
                ' '
            },
    );
    let dashes = seq!['-', '-', '-'];
    lemma_nothing_to_bar(dashes);
    if n == 1 {
        assert(joined(cells, '\t') =~= dashes);
        assert(dashes =~= want);
    } else {
        lemma_dashes_barred((n - 1) as nat);
        let front = Seq::new((n - 1) as nat, |i: int| seq!['-', '-', '-']);
        assert(cells.drop_last() =~= front);
        let tab = seq!['\t'];
        assert(joined(cells, '\t') =~= joined(front, '\t') + (tab + dashes));
        lemma_barred_concat(joined(front, '\t'), tab + dashes);
        lemma_barred_concat(tab, dashes);
        lemma_tab_is_a_bar();
        assert(barred(joined(cells, '\t')) =~= want);
    }
}

/// The Markdown table has three lines, and split at its bars each of them has one cell for each
/// column: the names of the header, three dashes, and the columns of the data row.
#[verifier::spinoff_prover]
pub proof fn lemma_cells_of_the_markdown_table(record: BenchmarkRecord)
    ensures
        ({
            let lines = fields(markdown_document(record), '\n');
            &&& lines.len() == 4
            &&& fields(lines[0], '|') == boxed(fields(TSV_HEADER@, '\t'))
            &&& fields(lines[1], '|') == boxed(Seq::new(10, |i: int| seq!['-', '-', '-']))
            &&& fields(lines[2], '|') == boxed(fields(joined(record.cells(), '\t'), '\t'))
            &&& lines[3].len() == 0
        }),
{
    let names = fields(TSV_HEADER@, '\t');
    let dashes = Seq::new(10, |i: int| seq!['-', '-', '-']);
    let cells = record.cells();
    lemma_header_columns();
    lemma_row_columns(record);
    lemma_bar_free_cells(record);
    lemma_bar_free_names();
    lemma_joined_back(TSV_HEADER@, '\t');
    lemma_markdown_row_is_boxed(names);
    lemma_markdown_row_is_boxed(cells);
    lemma_rule_is_boxed();
    lemma_split_boxed(names);
    lemma_split_boxed(dashes);
    lemma_split_boxed(cells);
    let (a, b, c) = (joined(boxed(names), '|'), joined(boxed(dashes), '|'), joined(boxed(cells), '|'));
    let nothing = Seq::<char>::empty();
    let lines = seq![a, b, c, nothing];
    assert forall|i: int| 0 <= i < lines.len() implies !(#[trigger] lines[i]).contains('\n') by {
        assert(without(lines[i], '\n'));
    }
    lemma_fields_of_joined(lines, '\n');
    assert(lines.drop_last() =~= seq![a, b, c]);
    assert(seq![a, b, c].drop_last() =~= seq![a, b]);
    assert(seq![a, b].drop_last() =~= seq![a]);
    assert(joined(seq![a], '\n') == a);
    assert(joined(seq![a, b], '\n') == a.push('\n') + b);
    assert(joined(seq![a, b, c], '\n') == (a.push('\n') + b).push('\n') + c);
    assert(joined(lines, '\n') =~= a.push('\n') + b.push('\n') + c.push('\n'));
    assert(markdown_document(record) =~= joined(lines, '\n'));
}

proof fn lemma_bar_free_names()
    ensures
        forall|i: int|
            0 <= i < fields(TSV_HEADER@, '\t').len() ==> without(
                #[trigger] fields(TSV_HEADER@, '\t')[i],
                '|',
            ) && without(fields(TSV_HEADER@, '\t')[i], '\t') && without(
                fields(TSV_HEADER@, '\t')[i],
                '\n',
            ),
{
    lemma_header_columns();
    reveal_strlit("s");
    reveal_strlit("h:m:s");
    reveal_strlit("max_rss");
    reveal_strlit("max_vms");
    reveal_strlit("max_uss");
    reveal_strlit("max_pss");
    reveal_strlit("io_in");
    reveal_strlit("io_out");
    reveal_strlit("mean_load");
    reveal_strlit("cpu_time");
}

} // verus!

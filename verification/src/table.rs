//! The shape of the tables: a row has the columns of its header, a document has its lines.

use vstd::prelude::*;

use crate::quantity::{point_notation, round_half_even, Quantity};
use crate::record::{
    clock, optional_cell, BenchmarkRecord, TickRecord, TRACE_TSV_HEADER, TSV_HEADER,
};
use crate::text::{decimal, fields, joined, lemma_fields_of_joined, padded, pow10};

verus! {

/// Text that fits in one cell: it holds neither a tab nor a newline.
pub open spec fn one_cell(text: Seq<char>) -> bool {
    forall|i: int| 0 <= i < text.len() ==> (#[trigger] text[i]) != '\t' && text[i] != '\n'
}

/// Pieces that fit in one cell fit in one cell together.
proof fn lemma_one_cell_concat(a: Seq<char>, b: Seq<char>)
    requires
        one_cell(a),
        one_cell(b),
    ensures
        one_cell(a + b),
{
    assert forall|i: int| 0 <= i < (a + b).len() implies (#[trigger] (a + b)[i]) != '\t' && (a
        + b)[i] != '\n' by {
        if i < a.len() {
            assert((a + b)[i] == a[i]);
        } else {
            assert((a + b)[i] == b[i - a.len()]);
        }
    }
}

proof fn lemma_decimal_one_cell(n: nat)
    ensures
        one_cell(decimal(n)),
    decreases n,
{
    if n >= 10 {
        lemma_decimal_one_cell(n / 10);
    }
}

proof fn lemma_padded_one_cell(n: nat, width: nat)
    ensures
        one_cell(padded(n, width)),
    decreases width,
{
    if width > 0 {
        lemma_padded_one_cell(n / 10, (width - 1) as nat);
    }
}

proof fn lemma_fixed_one_cell(q: Quantity, places: nat)
    ensures
        one_cell(q.fixed(places)),
{
    reveal_strlit("-");
    reveal_strlit("NaN");
    reveal_strlit("inf");
    let magnitude = round_half_even(q.over() * pow10(places), q.under());
    lemma_decimal_one_cell(magnitude);
    lemma_decimal_one_cell(magnitude / pow10(places));
    lemma_padded_one_cell(magnitude % pow10(places), places);
    if places > 0 {
        let head = decimal(magnitude / pow10(places)).push('.');
        assert(one_cell(head));
        lemma_one_cell_concat(head, padded(magnitude % pow10(places), places));
    }
    lemma_one_cell_concat("-"@, point_notation(magnitude, places));
    lemma_one_cell_concat("-"@, "inf"@);
}

proof fn lemma_optional_one_cell(value: Option<Quantity>)
    ensures
        one_cell(optional_cell(value)),
{
    reveal_strlit("-");
    if let Some(v) = value {
        lemma_fixed_one_cell(v, 2);
    }
}

proof fn lemma_clock_one_cell(total: nat)
    ensures
        one_cell(clock(total)),
{
    reveal_strlit(":");
    reveal_strlit("1 day, ");
    reveal_strlit(" days, ");
    let days = total / 86_400;
    let rem = total % 86_400;
    lemma_decimal_one_cell(days);
    lemma_decimal_one_cell(rem / 3600);
    lemma_padded_one_cell((rem % 3600) / 60, 2);
    lemma_padded_one_cell(rem % 60, 2);
    let a = decimal(rem / 3600) + ":"@;
    lemma_one_cell_concat(decimal(rem / 3600), ":"@);
    let b = a + padded((rem % 3600) / 60, 2);
    lemma_one_cell_concat(a, padded((rem % 3600) / 60, 2));
    lemma_one_cell_concat(b, ":"@);
    lemma_one_cell_concat(b + ":"@, padded(rem % 60, 2));
    let body = b + ":"@ + padded(rem % 60, 2);
    lemma_one_cell_concat("1 day, "@, body);
    lemma_one_cell_concat(decimal(days), " days, "@);
    lemma_one_cell_concat(decimal(days) + " days, "@, body);
}

/// A joined line of cells holds no newline.
proof fn lemma_joined_one_line(cells: Seq<Seq<char>>)
    requires
        forall|i: int| 0 <= i < cells.len() ==> one_cell(#[trigger] cells[i]),
    ensures
        !joined(cells, '\t').contains('\n'),
    decreases cells.len(),
{
    if cells.len() == 1 {
        assert(one_cell(cells[0]));
    } else if cells.len() > 1 {
        let front = cells.drop_last();
        let line = joined(cells, '\t');
        let head = joined(front, '\t');
        assert forall|i: int| 0 <= i < front.len() implies one_cell(#[trigger] front[i]) by {
            assert(front[i] == cells[i]);
        }
        lemma_joined_one_line(front);
        assert(one_cell(cells[cells.len() - 1]));
        assert forall|i: int| 0 <= i < line.len() implies line[i] != '\n' by {
            if i < head.len() {
                assert(line[i] == head[i]);
                assert(head.contains(head[i]));
            } else if i > head.len() {
                assert(line[i] == cells.last()[i - head.len() - 1]);
            }
        }
    }
}

/// A cell holds no tab.
proof fn lemma_cells_hold_no_tab(cells: Seq<Seq<char>>)
    requires
        forall|i: int| 0 <= i < cells.len() ==> one_cell(#[trigger] cells[i]),
    ensures
        forall|i: int| 0 <= i < cells.len() ==> !(#[trigger] cells[i]).contains('\t'),
{
    assert forall|i: int| 0 <= i < cells.len() implies !(#[trigger] cells[i]).contains('\t') by {
        assert(one_cell(cells[i]));
    }
}

/// One more column name read off a header.
proof fn lemma_header_step(header: Seq<char>, names: Seq<Seq<char>>, name: Seq<char>, at: int)
    requires
        names.len() >= 1,
        0 <= at,
        at + 1 + name.len() <= header.len(),
        joined(names, '\t') == header.take(at),
        header[at] == '\t',
        forall|i: int| 0 <= i < name.len() ==> #[trigger] header[at + 1 + i] == name[i],
    ensures
        joined(names.push(name), '\t') == header.take(at + 1 + name.len()),
{
    assert(names.push(name).drop_last() =~= names);
    let line = header.take(at).push('\t') + name;
    assert forall|i: int| 0 <= i < line.len() implies line[i] == header[i] by {
        if i > at {
            let k = i - at - 1;
            assert(header[at + 1 + k] == name[k]);
        }
    }
    assert(line =~= header.take(at + 1 + name.len()));
}

/// The header of the aggregate table names ten columns.
pub proof fn lemma_header_columns()
    ensures
        fields(TSV_HEADER@, '\t') == seq![
            "s"@,
            "h:m:s"@,
            "max_rss"@,
            "max_vms"@,
            "max_uss"@,
            "max_pss"@,
            "io_in"@,
            "io_out"@,
            "mean_load"@,
            "cpu_time"@,
        ],
        !TSV_HEADER@.contains('\n'),
{
    reveal_strlit("s\th:m:s\tmax_rss\tmax_vms\tmax_uss\tmax_pss\tio_in\tio_out\tmean_load\tcpu_time");
    reveal_strlit("s");
    reveal_strlit("h:m:s");
    reveal_strlit("max_rss");
    reveal_strlit("max_vms");
    reveal_strlit("max_uss");
    reveal_strlit("max_pss");
    reveal_strlit("io_in");
    reveal_strlit("io_out");
    reveal_strlit("mean_load");
    reveal_strlit("cpu_time");
    let header = TSV_HEADER@;
    let names = seq!["s"@];
    assert(joined(names, '\t') =~= header.take(1));
    lemma_header_step(header, names, "h:m:s"@, 1);
    let names = names.push("h:m:s"@);
    lemma_header_step(header, names, "max_rss"@, 7);
    let names = names.push("max_rss"@);
    lemma_header_step(header, names, "max_vms"@, 15);
    let names = names.push("max_vms"@);
    lemma_header_step(header, names, "max_uss"@, 23);
    let names = names.push("max_uss"@);
    lemma_header_step(header, names, "max_pss"@, 31);
    let names = names.push("max_pss"@);
    lemma_header_step(header, names, "io_in"@, 39);
    let names = names.push("io_in"@);
    lemma_header_step(header, names, "io_out"@, 45);
    let names = names.push("io_out"@);
    lemma_header_step(header, names, "mean_load"@, 52);
    let names = names.push("mean_load"@);
    lemma_header_step(header, names, "cpu_time"@, 62);
    let names = names.push("cpu_time"@);
    assert(header.take(71) =~= header);
    assert(names =~= seq![
        "s"@,
        "h:m:s"@,
        "max_rss"@,
        "max_vms"@,
        "max_uss"@,
        "max_pss"@,
        "io_in"@,
        "io_out"@,
        "mean_load"@,
        "cpu_time"@,
    ]);
    assert(forall|i: int| 0 <= i < names.len() ==> one_cell(#[trigger] names[i]));
    lemma_cells_hold_no_tab(names);
    lemma_fields_of_joined(names, '\t');
    lemma_joined_one_line(names);
}

/// The header of the trace names nine columns.
pub proof fn lemma_trace_header_columns()
    ensures
        fields(TRACE_TSV_HEADER@, '\t') == seq![
            "s"@,
            "rss"@,
            "vms"@,
            "uss"@,
            "pss"@,
            "io_in"@,
            "io_out"@,
            "cpu_time"@,
            "n_procs"@,
        ],
        !TRACE_TSV_HEADER@.contains('\n'),
{
    reveal_strlit("s\trss\tvms\tuss\tpss\tio_in\tio_out\tcpu_time\tn_procs");
    reveal_strlit("s");
    reveal_strlit("rss");
    reveal_strlit("vms");
    reveal_strlit("uss");
    reveal_strlit("pss");
    reveal_strlit("io_in");
    reveal_strlit("io_out");
    reveal_strlit("cpu_time");
    reveal_strlit("n_procs");
    let header = TRACE_TSV_HEADER@;
    let names = seq!["s"@];
    assert(joined(names, '\t') =~= header.take(1));
    lemma_header_step(header, names, "rss"@, 1);
    let names = names.push("rss"@);
    lemma_header_step(header, names, "vms"@, 5);
    let names = names.push("vms"@);
    lemma_header_step(header, names, "uss"@, 9);
    let names = names.push("uss"@);
    lemma_header_step(header, names, "pss"@, 13);
    let names = names.push("pss"@);
    lemma_header_step(header, names, "io_in"@, 17);
    let names = names.push("io_in"@);
    lemma_header_step(header, names, "io_out"@, 23);
    let names = names.push("io_out"@);
    lemma_header_step(header, names, "cpu_time"@, 30);
    let names = names.push("cpu_time"@);
    lemma_header_step(header, names, "n_procs"@, 39);
    let names = names.push("n_procs"@);
    assert(header.take(47) =~= header);
    assert(names =~= seq![
        "s"@,
        "rss"@,
        "vms"@,
        "uss"@,
        "pss"@,
        "io_in"@,
        "io_out"@,
        "cpu_time"@,
        "n_procs"@,
    ]);
    assert(forall|i: int| 0 <= i < names.len() ==> one_cell(#[trigger] names[i]));
    lemma_cells_hold_no_tab(names);
    lemma_fields_of_joined(names, '\t');
    lemma_joined_one_line(names);
}

/// A data row splits at its tabs into as many columns as the header, and each column is the cell
/// that was meant; where no data was collected, every resource column reads `NA`.
pub proof fn lemma_row_columns(record: BenchmarkRecord)
    ensures
        fields(joined(record.cells(), '\t'), '\t') == record.cells(),
        record.cells().len() == fields(TSV_HEADER@, '\t').len(),
        !record.data_collected ==> forall|i: int|
            2 <= i < record.cells().len() ==> #[trigger] fields(
                joined(record.cells(), '\t'),
                '\t',
            )[i] == "NA"@,
        !joined(record.cells(), '\t').contains('\n'),
{
    lemma_record_cells(record);
    lemma_joined_one_line(record.cells());
    lemma_header_columns();
    lemma_cells_hold_no_tab(record.cells());
    lemma_fields_of_joined(record.cells(), '\t');
}

proof fn lemma_record_cells(record: BenchmarkRecord)
    ensures
        record.cells().len() == 10,
        forall|i: int| 0 <= i < record.cells().len() ==> one_cell(#[trigger] record.cells()[i]),
{
    reveal_strlit("NA");
    lemma_fixed_one_cell(record.running_time, 4);
    lemma_clock_one_cell(record.running_time.whole() as nat);
    lemma_optional_one_cell(record.max_rss);
    lemma_optional_one_cell(record.max_vms);
    lemma_optional_one_cell(record.max_uss);
    lemma_optional_one_cell(record.max_pss);
    lemma_optional_one_cell(record.io_in);
    lemma_optional_one_cell(record.io_out);
    lemma_fixed_one_cell(record.mean_load, 2);
    lemma_fixed_one_cell(record.cpu_time, 2);
}

/// A trace row splits at its tabs into as many columns as the trace header, and each column is
/// the cell that was meant.
pub proof fn lemma_trace_row_columns(tick: TickRecord)
    ensures
        fields(joined(tick.cells(), '\t'), '\t') == tick.cells(),
        tick.cells().len() == fields(TRACE_TSV_HEADER@, '\t').len(),
        !joined(tick.cells(), '\t').contains('\n'),
{
    lemma_fixed_one_cell(tick.elapsed, 4);
    lemma_fixed_one_cell(tick.rss, 2);
    lemma_fixed_one_cell(tick.vms, 2);
    lemma_optional_one_cell(tick.uss);
    lemma_optional_one_cell(tick.pss);
    lemma_optional_one_cell(tick.io_in);
    lemma_optional_one_cell(tick.io_out);
    lemma_fixed_one_cell(tick.cpu_time, 2);
    lemma_decimal_one_cell(tick.n_procs as nat);
    assert(forall|i: int| 0 <= i < tick.cells().len() ==> one_cell(#[trigger] tick.cells()[i]));
    lemma_trace_header_columns();
    lemma_cells_hold_no_tab(tick.cells());
    lemma_fields_of_joined(tick.cells(), '\t');
    lemma_joined_one_line(tick.cells());
}

/// A document is the header line and one data line, each ended by a newline.
pub proof fn lemma_document_lines(record: BenchmarkRecord)
    ensures
        fields(record.document(), '\n') == seq![
            TSV_HEADER@,
            joined(record.cells(), '\t'),
            Seq::<char>::empty(),
        ],
{
    reveal_strlit("\n");
    lemma_header_columns();
    lemma_record_cells(record);
    lemma_joined_one_line(record.cells());
    let row = joined(record.cells(), '\t');
    let lines = seq![TSV_HEADER@, row, Seq::<char>::empty()];
    let two = seq![TSV_HEADER@, row];
    assert(lines.drop_last() =~= two);
    assert(two.drop_last() =~= seq![TSV_HEADER@]);
    assert(joined(seq![TSV_HEADER@], '\n') == TSV_HEADER@);
    assert(joined(two, '\n') == TSV_HEADER@.push('\n') + row);
    assert(joined(lines, '\n') =~= record.document());
    lemma_fields_of_joined(lines, '\n');
}

/// Rounding goes to a nearest integer: it is off by at most half.
pub proof fn lemma_rounding_is_nearest(a: nat, b: nat)
    requires
        b > 0,
    ensures
        2 * (round_half_even(a, b) * b) <= 2 * a + b,
        2 * a <= 2 * (round_half_even(a, b) * b) + b,
{
    vstd::arithmetic::div_mod::lemma_fundamental_div_mod(a as int, b as int);
    let q = (a / b) as int;
    assert((q + 1) * b == q * b + b) by (nonlinear_arith);
    assert(q * b == b * q) by (nonlinear_arith);
}

} // verus!

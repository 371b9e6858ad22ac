//! Output formats of the aggregate record.

use vstd::prelude::*;
use vstd::string::{StrSliceExecFns, StringExecFns};

use crate::record::{BenchmarkRecord, TSV_HEADER};
use crate::text::joined;

verus! {

/// One of the supported on-disk output formats.
#[derive(Debug, Clone, Copy, PartialEq, Eq, Structural)]
pub enum OutputFormat {
    /// A header row plus one data row, tab-separated.
    Tsv,
    /// A single JSON object on one line, with no newline behind it.
    Json,
}

impl OutputFormat {
    /// File-extension hint for help text and downstream tooling.
    pub fn extension(self) -> (r: &'static str)
        ensures
            r@ == (match self {
                OutputFormat::Tsv => "tsv"@,
                OutputFormat::Json => "json"@,
            }),
    {
        match self {
            OutputFormat::Tsv => "tsv",
            OutputFormat::Json => "json",
        }
    }
}

/// What is written for `record`: the table, or `json`, the record as a JSON object.
pub open spec fn written(record: BenchmarkRecord, format: OutputFormat, json: Seq<char>) -> Seq<
    char,
> {
    match format {
        OutputFormat::Tsv => record.document(),
        OutputFormat::Json => json,
    }
}

/// Writes `record` behind what is already in `writer`. `json` is the record as a JSON object;
/// it is not looked at where the format is another one.
pub fn write_to(record: &BenchmarkRecord, writer: &mut String, format: OutputFormat, json: &str)
    ensures
        final(writer)@ == old(writer)@ + written(*record, format, json@),
{
    match format {
        OutputFormat::Tsv => writer.append(record.to_tsv_document().as_str()),
        OutputFormat::Json => writer.append(json),
    }
}

/// A tab-separated line with bars between its cells.
pub open spec fn barred(line: Seq<char>) -> Seq<char>
    decreases line.len(),
{
    if line.len() == 0 {
        Seq::empty()
    } else {
        barred(line.drop_last()) + (if line.last() == '\t' {
            " | "@
        } else {
            seq![line.last()]
        })
    }
}

/// A tab-separated line as a row of a Markdown table.
pub open spec fn markdown_row(line: Seq<char>) -> Seq<char> {
    "| "@ + barred(line) + " |\n"@
}

/// The record as a Markdown table: the header, the rule below it, and the data row.
pub open spec fn markdown_document(record: BenchmarkRecord) -> Seq<char> {
    markdown_row(TSV_HEADER@) + MARKDOWN_RULE@ + markdown_row(joined(record.cells(), '\t'))
}

/// The line between the header and the data of a Markdown table of ten columns.
pub const MARKDOWN_RULE: &'static str =
    "| --- | --- | --- | --- | --- | --- | --- | --- | --- | --- |\n";

/// Writes a tab-separated line as a row of a Markdown table.
fn push_markdown_row(out: &mut String, line: &str)
    ensures
        final(out)@ == old(out)@ + markdown_row(line@),
{
    out.append("| ");
    let ghost start: Seq<char> = out@;
    let n: usize = line.unicode_len();
    let mut i: usize = 0;
    assert(barred(line@.take(0)) =~= Seq::empty());
    while i < n
        invariant
            i <= n == line@.len(),
            out@ == start + barred(line@.take(i as int)),
        decreases n - i,
    {
        if line.get_char(i) == '\t' {
            out.append(" | ");
        } else {
            out.append(line.substring_char(i, i + 1));
        }
        proof {
            assert(line@.take(i + 1).drop_last() =~= line@.take(i as int));
            assert(line@.subrange(i as int, i + 1) =~= seq![line@[i as int]]);
            assert(out@ =~= start + barred(line@.take(i + 1)));
        }
        i = i + 1;
    }
    assert(line@.take(n as int) =~= line@);
    out.append(" |\n");
    assert(final(out)@ =~= old(out)@ + markdown_row(line@));
}

/// Writes `record` as a Markdown table.
pub fn to_markdown_document(record: &BenchmarkRecord) -> (out: String)
    ensures
        out@ == markdown_document(*record),
{
    let mut out: String = String::new();
    push_markdown_row(&mut out, TSV_HEADER);
    out.append(MARKDOWN_RULE);
    push_markdown_row(&mut out, record.to_tsv_row().as_str());
    assert(out@ =~= markdown_document(*record));
    out
}

} // verus!

//! The aggregate benchmark record, the per-tick trace record, and their text.
//!
//! The aggregate row has the columns and the formatting of Snakemake's `benchmark:` files, so
//! that tools that parse those can read it unchanged.

use vstd::prelude::*;
use vstd::string::StringExecFns;

use crate::quantity::Quantity;
use crate::text::{decimal, joined, padded, push_decimal, push_padded};

verus! {

/// Header row of the aggregate table.
pub const TSV_HEADER: &'static str =
    "s\th:m:s\tmax_rss\tmax_vms\tmax_uss\tmax_pss\tio_in\tio_out\tmean_load\tcpu_time";

/// Header row of the per-tick trace. Memory is instantaneous there, I/O and CPU time are
/// cumulative so far; load and `h:m:s` mean something only for a whole run.
pub const TRACE_TSV_HEADER: &'static str = "s\trss\tvms\tuss\tpss\tio_in\tio_out\tcpu_time\tn_procs";

/// Which columns the aggregate writers may show. The aggregate table has Snakemake's columns and
/// no others, so that both modes give the same ones today.
#[derive(Debug, Clone, Copy, PartialEq, Eq, Structural)]
pub enum SchemaMode {
    /// All columns.
    Full,
    /// Snakemake's columns and no others.
    SnakemakeStrict,
}

/// One per-tick row of the trace.
///
/// Memory is summed over the processes that live at that tick, in MiB. I/O and CPU time are
/// summed over every process seen so far, so they never fall from one row to the next.
#[derive(Debug, Clone, Copy)]
pub struct TickRecord {
    /// Seconds since the sampler started.
    pub elapsed: Quantity,
    pub rss: Quantity,
    pub vms: Quantity,
    pub uss: Option<Quantity>,
    pub pss: Option<Quantity>,
    pub io_in: Option<Quantity>,
    pub io_out: Option<Quantity>,
    /// User and system CPU time, in seconds.
    pub cpu_time: Quantity,
    /// Number of live processes in this tick.
    pub n_procs: usize,
    /// Major page faults since the tick before.
    pub major_page_faults: Option<u64>,
    /// Minor page faults since the tick before.
    pub minor_page_faults: Option<u64>,
    /// Voluntary context switches since the tick before.
    pub voluntary_ctx_switches: Option<u64>,
    /// Involuntary context switches since the tick before.
    pub involuntary_ctx_switches: Option<u64>,
    /// Live threads over all processes of this tick.
    pub n_threads: Option<u64>,
}

/// The aggregate of all samples taken across a run.
///
/// Memory and I/O are in MiB, times in seconds, and the load in percent of one core. A value is
/// `None` where no process ever exposed it.
#[derive(Debug, Clone, Copy)]
pub struct BenchmarkRecord {
    /// Wall-clock running time.
    pub running_time: Quantity,
    /// Peak resident set size, summed across the process tree.
    pub max_rss: Option<Quantity>,
    /// Peak virtual memory size, summed across the process tree.
    pub max_vms: Option<Quantity>,
    /// Peak unique set size, summed across the process tree.
    pub max_uss: Option<Quantity>,
    /// Peak proportional set size, summed across the process tree.
    pub max_pss: Option<Quantity>,
    /// Bytes read from disk by the process tree.
    pub io_in: Option<Quantity>,
    /// Bytes written to disk by the process tree.
    pub io_out: Option<Quantity>,
    /// Average CPU load over the run.
    pub mean_load: Quantity,
    /// User and system CPU time across the process tree.
    pub cpu_time: Quantity,
    pub major_page_faults: Option<u64>,
    pub minor_page_faults: Option<u64>,
    pub voluntary_ctx_switches: Option<u64>,
    pub involuntary_ctx_switches: Option<u64>,
    /// Most live threads in one tick.
    pub peak_n_threads: Option<u64>,
    /// Most live processes in one tick.
    pub peak_n_procs: u64,
    /// System load average when the run began.
    pub loadavg_1m_start: Option<Quantity>,
    /// System load average when the run ended.
    pub loadavg_1m_end: Option<Quantity>,
    /// System page cache when the run began, in MiB.
    pub page_cache_start: Option<Quantity>,
    /// System page cache when the run ended, in MiB.
    pub page_cache_end: Option<Quantity>,
    /// Whether at least one sample read the resource counters. Where it is `false`, every
    /// resource column reads `NA`.
    pub data_collected: bool,
}

/// `value` to two places, or a dash where it is missing.
pub open spec fn optional_cell(value: Option<Quantity>) -> Seq<char> {
    match value {
        Some(v) => v.fixed(2),
        None => "-"@,
    }
}

/// `value` to one place with its unit, or a dash where it is missing.
pub open spec fn mebibyte_phrase(value: Option<Quantity>) -> Seq<char> {
    match value {
        Some(v) => v.fixed(1) + "MiB"@,
        None => "-"@,
    }
}

/// `total` seconds as `H:MM:SS`, behind the number of days where there are any.
pub open spec fn clock(total: nat) -> Seq<char> {
    let days = total / 86_400;
    let rem = total % 86_400;
    let body = decimal(rem / 3600) + ":"@ + padded((rem % 3600) / 60, 2) + ":"@ + padded(
        rem % 60,
        2,
    );
    if days == 0 {
        body
    } else if days == 1 {
        "1 day, "@ + body
    } else {
        decimal(days) + " days, "@ + body
    }
}

/// Writes an optional value for a table cell.
fn format_optional_float(value: Option<Quantity>) -> (out: String)
    ensures
        out@ == optional_cell(value),
{
    match value {
        Some(v) => v.to_fixed(2),
        None => "-".to_owned(),
    }
}

/// Writes `seconds` as `H:MM:SS`, or `N day(s), H:MM:SS` past 24 hours, cut to whole seconds.
pub fn format_hms(seconds: Quantity) -> (out: String)
    ensures
        out@ == clock(seconds.whole() as nat),
{
    let total: u128 = seconds.whole_units() as u128;
    let days: u128 = total / 86_400;
    let rem: u128 = total % 86_400;
    let mut out: String = String::new();
    if days == 1 {
        out.append("1 day, ");
    } else if days > 1 {
        push_decimal(&mut out, days);
        out.append(" days, ");
    }
    push_decimal(&mut out, rem / 3600);
    out.append(":");
    push_padded(&mut out, (rem % 3600) / 60, 2);
    out.append(":");
    push_padded(&mut out, rem % 60, 2);
    assert(out@ =~= clock(total as nat));
    out
}

/// Puts one more cell behind the line `out`.
fn push_cell(out: &mut String, cell: &str)
    ensures
        forall|cells: Seq<Seq<char>>|
            old(out)@ == (#[trigger] joined(cells, '\t')) && cells.len() >= 1 ==> final(out)@
                == joined(cells.push(cell@), '\t'),
{
    out.append("\t");
    out.append(cell);
    proof {
        reveal_strlit("\t");
    }
    assert forall|cells: Seq<Seq<char>>|
        old(out)@ == (#[trigger] joined(cells, '\t')) && cells.len() >= 1 implies final(out)@
        == joined(cells.push(cell@), '\t') by {
        assert(cells.push(cell@).drop_last() =~= cells);
        assert(joined(cells, '\t') + "\t"@ =~= joined(cells, '\t').push('\t'));
    }
}

impl Default for TickRecord {
    /// A tick of which nothing was observed.
    fn default() -> (t: TickRecord)
        ensures
            t.elapsed == Quantity::zero(),
            t.rss == Quantity::zero(),
            t.vms == Quantity::zero(),
            t.uss is None,
            t.pss is None,
            t.io_in is None,
            t.io_out is None,
            t.cpu_time == Quantity::zero(),
            t.n_procs == 0,
            t.major_page_faults is None,
            t.minor_page_faults is None,
            t.voluntary_ctx_switches is None,
            t.involuntary_ctx_switches is None,
            t.n_threads is None,
    {
        TickRecord {
            elapsed: Quantity::default(),
            rss: Quantity::default(),
            vms: Quantity::default(),
            uss: None,
            pss: None,
            io_in: None,
            io_out: None,
            cpu_time: Quantity::default(),
            n_procs: 0,
            major_page_faults: None,
            minor_page_faults: None,
            voluntary_ctx_switches: None,
            involuntary_ctx_switches: None,
            n_threads: None,
        }
    }
}

impl TickRecord {
    /// The cells of the trace row.
    pub open spec fn cells(self) -> Seq<Seq<char>> {
        seq![
            self.elapsed.fixed(4),
            self.rss.fixed(2),
            self.vms.fixed(2),
            optional_cell(self.uss),
            optional_cell(self.pss),
            optional_cell(self.io_in),
            optional_cell(self.io_out),
            self.cpu_time.fixed(2),
            decimal(self.n_procs as nat),
        ]
    }

    /// Writes this tick as one trace row: four places for the elapsed time, two for the other
    /// amounts, a dash for a missing one, and a bare integer for the process count.
    pub fn to_tsv_row(&self) -> (out: String)
        ensures
            out@ == joined(self.cells(), '\t'),
    {
        let mut out: String = self.elapsed.to_fixed(4);
        let ghost mut cells: Seq<Seq<char>> = seq![self.elapsed.fixed(4)];
        assert(out@ == joined(cells, '\t'));
        push_cell(&mut out, self.rss.to_fixed(2).as_str());
        push_cell(&mut out, self.vms.to_fixed(2).as_str());
        push_cell(&mut out, format_optional_float(self.uss).as_str());
        push_cell(&mut out, format_optional_float(self.pss).as_str());
        push_cell(&mut out, format_optional_float(self.io_in).as_str());
        push_cell(&mut out, format_optional_float(self.io_out).as_str());
        push_cell(&mut out, self.cpu_time.to_fixed(2).as_str());
        let mut count: String = String::new();
        push_decimal(&mut count, self.n_procs as u128);
        assert(count@ =~= decimal(self.n_procs as nat));
        push_cell(&mut out, count.as_str());
        proof {
            cells = cells.push(self.rss.fixed(2)).push(self.vms.fixed(2));
            cells = cells.push(optional_cell(self.uss)).push(optional_cell(self.pss));
            cells = cells.push(optional_cell(self.io_in)).push(optional_cell(self.io_out));
            cells = cells.push(self.cpu_time.fixed(2)).push(decimal(self.n_procs as nat));
            assert(cells =~= self.cells());
        }
        out
    }
}

impl Default for BenchmarkRecord {
    /// A run of no length of which nothing was observed.
    fn default() -> (r: BenchmarkRecord)
        ensures
            r.running_time == Quantity::zero(),
            r.holds_nothing(),
    {
        BenchmarkRecord {
            running_time: Quantity::default(),
            max_rss: None,
            max_vms: None,
            max_uss: None,
            max_pss: None,
            io_in: None,
            io_out: None,
            mean_load: Quantity::default(),
            cpu_time: Quantity::default(),
            major_page_faults: None,
            minor_page_faults: None,
            voluntary_ctx_switches: None,
            involuntary_ctx_switches: None,
            peak_n_threads: None,
            peak_n_procs: 0,
            loadavg_1m_start: None,
            loadavg_1m_end: None,
            page_cache_start: None,
            page_cache_end: None,
            data_collected: false,
        }
    }
}

impl BenchmarkRecord {
    /// No resource was observed.
    pub open spec fn holds_nothing(self) -> bool {
        &&& self.max_rss is None
        &&& self.max_vms is None
        &&& self.max_uss is None
        &&& self.max_pss is None
        &&& self.io_in is None
        &&& self.io_out is None
        &&& self.mean_load == Quantity::zero()
        &&& self.cpu_time == Quantity::zero()
        &&& self.major_page_faults is None
        &&& self.minor_page_faults is None
        &&& self.voluntary_ctx_switches is None
        &&& self.involuntary_ctx_switches is None
        &&& self.peak_n_threads is None
        &&& self.peak_n_procs == 0
        &&& self.has_no_context()
        &&& !self.data_collected
    }

    /// Nothing is known of the system around the run.
    pub open spec fn has_no_context(self) -> bool {
        &&& self.loadavg_1m_start is None
        &&& self.loadavg_1m_end is None
        &&& self.page_cache_start is None
        &&& self.page_cache_end is None
    }

    /// The cells of the data row.
    pub open spec fn cells(self) -> Seq<Seq<char>> {
        seq![self.running_time.fixed(4), clock(self.running_time.whole() as nat)] + (
        if self.data_collected {
            seq![
                optional_cell(self.max_rss),
                optional_cell(self.max_vms),
                optional_cell(self.max_uss),
                optional_cell(self.max_pss),
                optional_cell(self.io_in),
                optional_cell(self.io_out),
                self.mean_load.fixed(2),
                self.cpu_time.fixed(2),
            ]
        } else {
            Seq::new(8, |i: int| "NA"@)
        })
    }

    /// The table: the header row and the data row, each ended by a newline.
    pub open spec fn document(self) -> Seq<char> {
        TSV_HEADER@ + "\n"@ + joined(self.cells(), '\t') + "\n"@
    }

    /// The one-line summary.
    pub open spec fn summary(self) -> Seq<char> {
        "wall="@ + self.running_time.fixed(2) + "s cpu="@ + self.cpu_time.fixed(2)
            + "s mean_load="@ + self.mean_load.fixed(0) + "% max_rss="@ + mebibyte_phrase(
            self.max_rss,
        ) + " max_uss="@ + mebibyte_phrase(self.max_uss) + " io_in="@ + mebibyte_phrase(
            self.io_in,
        ) + " io_out="@ + mebibyte_phrase(self.io_out)
    }

    /// Writes this record as one table row: four places for the running time, two for the other
    /// amounts, a dash for a missing one, and `NA` in every resource column where no data was
    /// collected.
    pub fn to_tsv_row(&self) -> (out: String)
        ensures
            out@ == joined(self.cells(), '\t'),
    {
        let mut out: String = self.running_time.to_fixed(4);
        let ghost first: Seq<Seq<char>> = seq![self.running_time.fixed(4)];
        assert(out@ == joined(first, '\t'));
        push_cell(&mut out, format_hms(self.running_time).as_str());
        let ghost start: Seq<Seq<char>> = first.push(clock(self.running_time.whole() as nat));
        assert(out@ == joined(start, '\t'));
        if !self.data_collected {
            let mut k: usize = 0;
            assert(start + Seq::new(0, |i: int| "NA"@) =~= start);
            while k < 8
                invariant
                    k <= 8,
                    start.len() == 2,
                    out@ == joined(start + Seq::new(k as nat, |i: int| "NA"@), '\t'),
                decreases 8 - k,
            {
                push_cell(&mut out, "NA");
                proof {
                    let before = start + Seq::new(k as nat, |i: int| "NA"@);
                    assert(before.push("NA"@) =~= start + Seq::new((k + 1) as nat, |i: int| "NA"@));
                }
                k = k + 1;
            }
            assert(start + Seq::new(8, |i: int| "NA"@) =~= self.cells());
            return out;
        }
        push_cell(&mut out, format_optional_float(self.max_rss).as_str());
        push_cell(&mut out, format_optional_float(self.max_vms).as_str());
        push_cell(&mut out, format_optional_float(self.max_uss).as_str());
        push_cell(&mut out, format_optional_float(self.max_pss).as_str());
        push_cell(&mut out, format_optional_float(self.io_in).as_str());
        push_cell(&mut out, format_optional_float(self.io_out).as_str());
        push_cell(&mut out, self.mean_load.to_fixed(2).as_str());
        push_cell(&mut out, self.cpu_time.to_fixed(2).as_str());
        proof {
            let mut cells = start.push(optional_cell(self.max_rss)).push(
                optional_cell(self.max_vms),
            );
            cells = cells.push(optional_cell(self.max_uss)).push(optional_cell(self.max_pss));
            cells = cells.push(optional_cell(self.io_in)).push(optional_cell(self.io_out));
            cells = cells.push(self.mean_load.fixed(2)).push(self.cpu_time.fixed(2));
            assert(cells =~= self.cells());
        }
        out
    }

    /// Writes this record as a complete table: header, data row, trailing newline.
    pub fn to_tsv_document(&self) -> (out: String)
        ensures
            out@ == self.document(),
    {
        let mut out: String = TSV_HEADER.to_owned();
        out.append("\n");
        out.append(self.to_tsv_row().as_str());
        out.append("\n");
        out
    }

    /// Writes the one-line summary that is printed after a run.
    pub fn summary_line(&self) -> (out: String)
        ensures
            out@ == self.summary(),
    {
        let mut out: String = "wall=".to_owned();
        out.append(self.running_time.to_fixed(2).as_str());
        out.append("s cpu=");
        out.append(self.cpu_time.to_fixed(2).as_str());
        out.append("s mean_load=");
        out.append(self.mean_load.to_fixed(0).as_str());
        out.append("% max_rss=");
        out.append(mebibytes_or_dash(self.max_rss).as_str());
        out.append(" max_uss=");
        out.append(mebibytes_or_dash(self.max_uss).as_str());
        out.append(" io_in=");
        out.append(mebibytes_or_dash(self.io_in).as_str());
        out.append(" io_out=");
        out.append(mebibytes_or_dash(self.io_out).as_str());
        out
    }
}

/// Writes an optional value for the summary.
fn mebibytes_or_dash(value: Option<Quantity>) -> (out: String)
    ensures
        out@ == mebibyte_phrase(value),
{
    match value {
        Some(v) => {
            let mut out: String = v.to_fixed(1);
            out.append("MiB");
            out
        },
        None => "-".to_owned(),
    }
}

} // verus!

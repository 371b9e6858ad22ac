//! The running aggregate of a benchmark run.

use std::collections::HashMap;

use vstd::prelude::*;

use super::account::{
    counter_total, cpu_total, accounts_after, cumulative_totals, enter_all, larger, raise, raised,
    CumulativeTotals, ProcessAccum,
};
use super::delta::{
    baselines_after, compute_and_advance_per_tick_deltas, tick_delta, PerTickDeltas,
    PrevCumulative,
};
use super::snapshot::{
    gauge_column, lemma_gauge_column_step, Counter, Event, Gauge, ProcessSnapshot,
};
use super::tally::{exposed_sum, saturated, tallied, Tally};
use crate::quantity::{Quantity, BYTES_PER_MIB};
use crate::record::{BenchmarkRecord, TickRecord};

verus! {

/// Running aggregate of all snapshots taken during a benchmark run.
///
/// A peak is `None` where no process ever exposed the reading in any tick.
#[derive(Debug)]
pub struct SamplerState {
    max_rss_bytes: u64,
    max_vms_bytes: u64,
    max_uss_bytes: Option<u64>,
    max_pss_bytes: Option<u64>,
    per_pid: HashMap<i32, ProcessAccum>,
    prev_cumulative: HashMap<i32, PrevCumulative>,
    max_n_threads: Option<u64>,
    max_n_procs: u64,
    data_collected: bool,
}

/// What a [`SamplerState`] stands for.
#[verifier::ext_equal]
pub struct SamplerModel {
    /// Peak over the ticks of the summed resident size.
    pub max_rss: u64,
    /// Peak over the ticks of the summed virtual size.
    pub max_vms: u64,
    /// Peak over the ticks of the summed unique size.
    pub max_uss: Option<u64>,
    /// Peak over the ticks of the summed proportional size.
    pub max_pss: Option<u64>,
    /// What is kept of each process.
    pub accounts: Map<i32, ProcessAccum>,
    /// Event counts that the next tick compares with.
    pub baselines: Map<i32, PrevCumulative>,
    /// Most live threads in one tick.
    pub max_n_threads: Option<u64>,
    /// Most live processes in one tick.
    pub max_n_procs: u64,
    /// Whether any tick showed a process.
    pub data_collected: bool,
}

/// The sum of `g` over a tick, or `None` where no process exposed it.
pub open spec fn gauge_total(snapshots: Seq<ProcessSnapshot>, g: Gauge) -> Option<u64> {
    tallied(gauge_column(snapshots, g))
}

/// The sum of `g` over a tick, where a process that does not expose it adds nothing.
pub open spec fn gauge_sum(snapshots: Seq<ProcessSnapshot>, g: Gauge) -> u64 {
    saturated(exposed_sum(gauge_column(snapshots, g)))
}

/// `q` is `bytes` in mebibytes.
pub open spec fn is_mebibytes(q: Quantity, bytes: u64) -> bool {
    q == Quantity::of(bytes as nat).divided(BYTES_PER_MIB as nat)
}

/// `q` is `bytes` in mebibytes, and missing where they are.
pub open spec fn may_be_mebibytes(q: Option<Quantity>, bytes: Option<u64>) -> bool {
    match (q, bytes) {
        (Some(v), Some(b)) => is_mebibytes(v, b),
        (None, None) => true,
        _ => false,
    }
}

/// `cpu` over `wall`, in percent; zero where no time passed.
pub open spec fn load(cpu: Quantity, wall: Quantity) -> Quantity {
    if wall.exceeds(Quantity::zero()) {
        cpu.quotient(wall).times(100)
    } else {
        Quantity::zero()
    }
}

impl SamplerModel {
    /// Nothing seen yet.
    pub open spec fn fresh() -> SamplerModel {
        SamplerModel {
            max_rss: 0,
            max_vms: 0,
            max_uss: None,
            max_pss: None,
            accounts: Map::empty(),
            baselines: Map::empty(),
            max_n_threads: None,
            max_n_procs: 0,
            data_collected: false,
        }
    }

    /// The aggregate after one more tick; an empty tick changes nothing.
    pub open spec fn absorbed(self, snapshots: Seq<ProcessSnapshot>) -> SamplerModel {
        if snapshots.len() == 0 {
            self
        } else {
            SamplerModel {
                max_rss: larger(self.max_rss, gauge_sum(snapshots, Gauge::Resident)),
                max_vms: larger(self.max_vms, gauge_sum(snapshots, Gauge::Virtual)),
                max_uss: raised(self.max_uss, gauge_total(snapshots, Gauge::Unique)),
                max_pss: raised(self.max_pss, gauge_total(snapshots, Gauge::Proportional)),
                accounts: accounts_after(self.accounts, snapshots),
                baselines: self.baselines,
                max_n_threads: raised(
                    self.max_n_threads,
                    gauge_total(snapshots, Gauge::Threads),
                ),
                max_n_procs: larger(self.max_n_procs, snapshots.len() as u64),
                data_collected: true,
            }
        }
    }

    /// The aggregate after a tick was put on record: only the baselines move.
    pub open spec fn ticked(self, snapshots: Seq<ProcessSnapshot>) -> SamplerModel {
        SamplerModel { baselines: baselines_after(self.baselines, snapshots), ..self }
    }

    /// The total of `c` over every process seen so far.
    pub open spec fn total(self, c: Counter) -> Option<u64> {
        counter_total(self.accounts, c)
    }

    /// `tick` is the trace record of `snapshots` after `elapsed` seconds: memory and threads
    /// of the live processes, I/O and CPU time of all processes so far, and the growth of the
    /// event counts since the tick before.
    pub open spec fn shows_tick(
        self,
        tick: TickRecord,
        snapshots: Seq<ProcessSnapshot>,
        elapsed: Quantity,
    ) -> bool {
        &&& tick.elapsed == elapsed
        &&& is_mebibytes(tick.rss, gauge_sum(snapshots, Gauge::Resident))
        &&& is_mebibytes(tick.vms, gauge_sum(snapshots, Gauge::Virtual))
        &&& may_be_mebibytes(tick.uss, gauge_total(snapshots, Gauge::Unique))
        &&& may_be_mebibytes(tick.pss, gauge_total(snapshots, Gauge::Proportional))
        &&& may_be_mebibytes(tick.io_in, self.total(Counter::BytesRead))
        &&& may_be_mebibytes(tick.io_out, self.total(Counter::BytesWritten))
        &&& tick.cpu_time == cpu_total(self.accounts)
        &&& tick.n_procs == snapshots.len()
        &&& tick.major_page_faults == tick_delta(self.baselines, snapshots, Event::MajorFaults)
        &&& tick.minor_page_faults == tick_delta(self.baselines, snapshots, Event::MinorFaults)
        &&& tick.voluntary_ctx_switches == tick_delta(
            self.baselines,
            snapshots,
            Event::VoluntarySwitches,
        )
        &&& tick.involuntary_ctx_switches == tick_delta(
            self.baselines,
            snapshots,
            Event::InvoluntarySwitches,
        )
        &&& tick.n_threads == gauge_total(snapshots, Gauge::Threads)
    }

    /// `record` is the aggregate record of a run of `wall` seconds.
    pub open spec fn shows_record(self, record: BenchmarkRecord, wall: Quantity) -> bool {
        &&& record.running_time == wall
        &&& record.data_collected == self.data_collected
        &&& if self.data_collected {
            &&& may_be_mebibytes(record.max_rss, Some(self.max_rss))
            &&& may_be_mebibytes(record.max_vms, Some(self.max_vms))
            &&& may_be_mebibytes(record.max_uss, self.max_uss)
            &&& may_be_mebibytes(record.max_pss, self.max_pss)
            &&& may_be_mebibytes(record.io_in, self.total(Counter::BytesRead))
            &&& may_be_mebibytes(record.io_out, self.total(Counter::BytesWritten))
            &&& record.mean_load == load(cpu_total(self.accounts), wall)
            &&& record.cpu_time == cpu_total(self.accounts)
            &&& record.major_page_faults == self.total(Counter::Events(Event::MajorFaults))
            &&& record.minor_page_faults == self.total(Counter::Events(Event::MinorFaults))
            &&& record.voluntary_ctx_switches == self.total(
                Counter::Events(Event::VoluntarySwitches),
            )
            &&& record.involuntary_ctx_switches == self.total(
                Counter::Events(Event::InvoluntarySwitches),
            )
            &&& record.peak_n_threads == self.max_n_threads
            &&& record.peak_n_procs == self.max_n_procs
            &&& record.has_no_context()
        } else {
            record.holds_nothing()
        }
    }
}

/// Memory summed over the live processes of one tick.
struct MemorySums {
    rss: u64,
    vms: u64,
    uss: Option<u64>,
    pss: Option<u64>,
}

/// Sums memory across the snapshots of one tick.
fn sum_memory(snapshots: &[ProcessSnapshot]) -> (sums: MemorySums)
    ensures
        sums.rss == gauge_sum(snapshots@, Gauge::Resident),
        sums.vms == gauge_sum(snapshots@, Gauge::Virtual),
        sums.uss == gauge_total(snapshots@, Gauge::Unique),
        sums.pss == gauge_total(snapshots@, Gauge::Proportional),
{
    let mut rss: u64 = 0;
    let mut vms: u64 = 0;
    let mut uss: Tally = Tally::new();
    let mut pss: Tally = Tally::new();
    let n: usize = snapshots.len();
    let mut i: usize = 0;
    proof {
        assert(gauge_column(snapshots@.take(0), Gauge::Resident) =~= Seq::empty());
        assert(gauge_column(snapshots@.take(0), Gauge::Virtual) =~= Seq::empty());
        assert(gauge_column(snapshots@.take(0), Gauge::Unique) =~= Seq::empty());
        assert(gauge_column(snapshots@.take(0), Gauge::Proportional) =~= Seq::empty());
    }
    while i < n
        invariant
            i <= n == snapshots@.len(),
            rss == gauge_sum(snapshots@.take(i as int), Gauge::Resident),
            vms == gauge_sum(snapshots@.take(i as int), Gauge::Virtual),
            uss.covers(gauge_column(snapshots@.take(i as int), Gauge::Unique)),
            pss.covers(gauge_column(snapshots@.take(i as int), Gauge::Proportional)),
        decreases n - i,
    {
        let snap: ProcessSnapshot = snapshots[i];
        rss = rss.saturating_add(snap.rss_bytes);
        vms = vms.saturating_add(snap.vms_bytes);
        uss.add(snap.uss_bytes);
        pss.add(snap.pss_bytes);
        proof {
            lemma_gauge_column_step(snapshots@, i as int, Gauge::Resident);
            lemma_gauge_column_step(snapshots@, i as int, Gauge::Virtual);
            lemma_gauge_column_step(snapshots@, i as int, Gauge::Unique);
            lemma_gauge_column_step(snapshots@, i as int, Gauge::Proportional);
            let before = gauge_column(snapshots@.take(i as int), Gauge::Resident);
            assert(before.push(snap.gauge(Gauge::Resident)).drop_last() =~= before);
            let before = gauge_column(snapshots@.take(i as int), Gauge::Virtual);
            assert(before.push(snap.gauge(Gauge::Virtual)).drop_last() =~= before);
        }
        i = i + 1;
    }
    assert(snapshots@.take(n as int) =~= snapshots@);
    MemorySums { rss, vms, uss: uss.get(), pss: pss.get() }
}

/// Sums the live threads across the snapshots of one tick.
fn sum_thread_count(snapshots: &[ProcessSnapshot]) -> (r: Option<u64>)
    ensures
        r == gauge_total(snapshots@, Gauge::Threads),
{
    let mut threads: Tally = Tally::new();
    let n: usize = snapshots.len();
    let mut i: usize = 0;
    assert(gauge_column(snapshots@.take(0), Gauge::Threads) =~= Seq::empty());
    while i < n
        invariant
            i <= n == snapshots@.len(),
            threads.covers(gauge_column(snapshots@.take(i as int), Gauge::Threads)),
        decreases n - i,
    {
        threads.add(snapshots[i].thread_count);
        proof {
            lemma_gauge_column_step(snapshots@, i as int, Gauge::Threads);
        }
        i = i + 1;
    }
    assert(snapshots@.take(n as int) =~= snapshots@);
    threads.get()
}

/// `bytes` in mebibytes, where they are there.
fn bytes_to_mib(bytes: Option<u64>) -> (q: Option<Quantity>)
    ensures
        may_be_mebibytes(q, bytes),
{
    match bytes {
        Some(b) => Some(Quantity::mebibytes(b)),
        None => None,
    }
}

/// The larger of two peaks.
fn peak(a: u64, b: u64) -> (r: u64)
    ensures
        r == larger(a, b),
{
    if a >= b {
        a
    } else {
        b
    }
}

impl View for SamplerState {
    type V = SamplerModel;

    closed spec fn view(&self) -> SamplerModel {
        SamplerModel {
            max_rss: self.max_rss_bytes,
            max_vms: self.max_vms_bytes,
            max_uss: self.max_uss_bytes,
            max_pss: self.max_pss_bytes,
            accounts: self.per_pid@,
            baselines: self.prev_cumulative@,
            max_n_threads: self.max_n_threads,
            max_n_procs: self.max_n_procs,
            data_collected: self.data_collected,
        }
    }
}

impl Default for SamplerState {
    /// The aggregate before the first tick.
    fn default() -> (s: SamplerState)
        ensures
            s@ == SamplerModel::fresh(),
    {
        SamplerState {
            max_rss_bytes: 0,
            max_vms_bytes: 0,
            max_uss_bytes: None,
            max_pss_bytes: None,
            per_pid: HashMap::new(),
            prev_cumulative: HashMap::new(),
            max_n_threads: None,
            max_n_procs: 0,
            data_collected: false,
        }
    }
}

impl SamplerState {
    /// Folds one tick's worth of snapshots into the running aggregate.
    pub fn absorb(&mut self, snapshots: &[ProcessSnapshot])
        ensures
            final(self)@ == old(self)@.absorbed(snapshots@),
    {
        if snapshots.len() == 0 {
            return;
        }
        let sums: MemorySums = sum_memory(snapshots);
        self.max_rss_bytes = peak(self.max_rss_bytes, sums.rss);
        self.max_vms_bytes = peak(self.max_vms_bytes, sums.vms);
        self.max_uss_bytes = raise(self.max_uss_bytes, sums.uss);
        self.max_pss_bytes = raise(self.max_pss_bytes, sums.pss);
        self.max_n_threads = raise(self.max_n_threads, sum_thread_count(snapshots));
        self.max_n_procs = peak(self.max_n_procs, snapshots.len() as u64);
        enter_all(&mut self.per_pid, snapshots);
        self.data_collected = true;
    }

    /// Builds the trace record of `snapshots`, the processes just sampled,
    /// `elapsed_seconds` after the start. Returns `None` where there are none.
    ///
    /// Moves the baselines up, so that the next tick shows its own growth.
    pub fn tick(&mut self, snapshots: &[ProcessSnapshot], elapsed_seconds: Quantity) -> (r: Option<
        TickRecord,
    >)
        ensures
            r is None <==> snapshots@.len() == 0,
            r matches Some(tick) ==> old(self)@.shows_tick(tick, snapshots@, elapsed_seconds),
            final(self)@ == old(self)@.ticked(snapshots@),
    {
        if snapshots.len() == 0 {
            return None;
        }
        let mem: MemorySums = sum_memory(snapshots);
        let cum: CumulativeTotals = cumulative_totals(&self.per_pid);
        let deltas: PerTickDeltas = compute_and_advance_per_tick_deltas(
            &mut self.prev_cumulative,
            snapshots,
        );
        Some(
            TickRecord {
                elapsed: elapsed_seconds,
                rss: Quantity::mebibytes(mem.rss),
                vms: Quantity::mebibytes(mem.vms),
                uss: bytes_to_mib(mem.uss),
                pss: bytes_to_mib(mem.pss),
                io_in: bytes_to_mib(cum.io_in),
                io_out: bytes_to_mib(cum.io_out),
                cpu_time: cum.cpu_time,
                n_procs: snapshots.len(),
                major_page_faults: deltas.major_page_faults,
                minor_page_faults: deltas.minor_page_faults,
                voluntary_ctx_switches: deltas.voluntary_ctx_switches,
                involuntary_ctx_switches: deltas.involuntary_ctx_switches,
                n_threads: sum_thread_count(snapshots),
            },
        )
    }

    /// Turns the running aggregate into the record of a run of `running_time_seconds`.
    pub fn into_record(self, running_time_seconds: Quantity) -> (r: BenchmarkRecord)
        ensures
            self@.shows_record(r, running_time_seconds),
    {
        let running_time: Quantity = running_time_seconds;
        if !self.data_collected {
            let mut record: BenchmarkRecord = BenchmarkRecord::default();
            record.running_time = running_time;
            return record;
        }
        let cum: CumulativeTotals = cumulative_totals(&self.per_pid);
        let mean_load: Quantity = if running_time.is_above(&Quantity::default()) {
            cum.cpu_time.ratio_to(&running_time).multiplied_by(100)
        } else {
            Quantity::default()
        };
        BenchmarkRecord {
            running_time,
            max_rss: Some(Quantity::mebibytes(self.max_rss_bytes)),
            max_vms: Some(Quantity::mebibytes(self.max_vms_bytes)),
            max_uss: bytes_to_mib(self.max_uss_bytes),
            max_pss: bytes_to_mib(self.max_pss_bytes),
            io_in: bytes_to_mib(cum.io_in),
            io_out: bytes_to_mib(cum.io_out),
            mean_load,
            cpu_time: cum.cpu_time,
            major_page_faults: cum.major_page_faults,
            minor_page_faults: cum.minor_page_faults,
            voluntary_ctx_switches: cum.voluntary_ctx_switches,
            involuntary_ctx_switches: cum.involuntary_ctx_switches,
            peak_n_threads: self.max_n_threads,
            peak_n_procs: self.max_n_procs,
            loadavg_1m_start: None,
            loadavg_1m_end: None,
            page_cache_start: None,
            page_cache_end: None,
            data_collected: true,
        }
    }
}

} // verus!

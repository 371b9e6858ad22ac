//! What each field of a record, of a trace row and of an account stands for, step by step: what one
//! more snapshot adds, what one more process adds, and what is shown of the sums.

use vstd::arithmetic::power2::{lemma_pow2_pos, pow2};
use vstd::prelude::*;

use super::account::{
    account_of, accounts_after, counter_amounts, counter_total, cpu_gains, cpu_losses, cpu_total,
    ever_exposed, ever_special, gain, is_special, loss, ProcessAccum, Special,
};
use super::delta::{baseline_of, baselines_after, growth_column, tick_delta, PrevCumulative};
use super::ledger::{ledger_sum, lemma_ledger_insert, lemma_zero_ledger};
use super::snapshot::{gauge_column, Counter, Event, Gauge, ProcessSnapshot};
use super::state::{gauge_sum, gauge_total, may_be_mebibytes, SamplerModel};
use super::tally::{amount, any_exposed, exposed_sum, saturated};
use super::trace_laws::lemma_nothing_exposed;
use crate::quantity::{lemma_exact_values_stay, lemma_nearest_is_duration, nearest, Quantity};
use crate::record::{BenchmarkRecord, TickRecord};
use crate::rounding::{
    lemma_grains_are_near, lemma_mebibytes_are_exact, lemma_mebibytes_are_near,
    lemma_turning_keeps_the_value,
};

verus! {

/// `q` is `bytes` over 1048576: exactly so below two to the power 53 bytes, and up to two roundings
/// beyond.
pub open spec fn worth_mebibytes(q: Quantity, bytes: u64) -> bool {
    let y = bytes as nat * pow2(1074);
    &&& q.is_finite()
    &&& !q.minus()
    &&& bytes < 0x20_0000_0000_0000 ==> q.over() * 1_048_576 == y
    &&& 0x20_0000_0000_0000 * (q.over() * 1_048_576) <= 0x20_0000_0000_0000 * y + 3 * y
        + 0x20_0000_0000_0000 * 1_048_576
    &&& 0x20_0000_0000_0000 * y <= 0x20_0000_0000_0000 * (q.over() * 1_048_576) + 3 * y
        + 0x20_0000_0000_0000 * 1_048_576
}

/// `q` is `bytes` in mebibytes, and is there exactly where they are.
pub open spec fn worth_optional_mebibytes(q: Option<Quantity>, bytes: Option<u64>) -> bool {
    &&& q is Some <==> bytes is Some
    &&& q matches Some(v) ==> worth_mebibytes(v, bytes->0)
}

proof fn lemma_worth(bytes: u64)
    ensures
        worth_mebibytes(Quantity::of(bytes as nat).divided(1_048_576), bytes),
{
    lemma_mebibytes_are_near(bytes);
    if bytes < 0x20_0000_0000_0000 {
        lemma_mebibytes_are_exact(bytes as nat);
    }
}

proof fn lemma_optional_worth(bytes: Option<u64>)
    ensures
        bytes matches Some(b) ==> worth_mebibytes(Quantity::of(b as nat).divided(1_048_576), b),
{
    if let Some(b) = bytes {
        lemma_worth(b);
    }
}

/// A record shows each peak and each total of the run under its own name, sizes in mebibytes. Where
/// no process was ever seen it shows the running time and nothing else.
pub proof fn lemma_record_shows_each_value(
    model: SamplerModel,
    record: BenchmarkRecord,
    wall: Quantity,
)
    requires
        model.shows_record(record, wall),
    ensures
        record.running_time == wall,
        record.data_collected == model.data_collected,
        model.data_collected ==> {
            &&& worth_optional_mebibytes(record.max_rss, Some(model.max_rss))
            &&& worth_optional_mebibytes(record.max_vms, Some(model.max_vms))
            &&& worth_optional_mebibytes(record.max_uss, model.max_uss)
            &&& worth_optional_mebibytes(record.max_pss, model.max_pss)
            &&& worth_optional_mebibytes(record.io_in, model.total(Counter::BytesRead))
            &&& worth_optional_mebibytes(record.io_out, model.total(Counter::BytesWritten))
            &&& record.cpu_time == cpu_total(model.accounts)
            &&& record.major_page_faults == model.total(Counter::Events(Event::MajorFaults))
            &&& record.minor_page_faults == model.total(Counter::Events(Event::MinorFaults))
            &&& record.voluntary_ctx_switches == model.total(
                Counter::Events(Event::VoluntarySwitches),
            )
            &&& record.involuntary_ctx_switches == model.total(
                Counter::Events(Event::InvoluntarySwitches),
            )
            &&& record.peak_n_threads == model.max_n_threads
            &&& record.peak_n_procs == model.max_n_procs
        },
        !model.data_collected ==> {
            &&& record.max_rss is None
            &&& record.max_vms is None
            &&& record.max_uss is None
            &&& record.max_pss is None
            &&& record.io_in is None
            &&& record.io_out is None
            &&& record.mean_load.bits == 0
            &&& record.cpu_time.bits == 0
            &&& record.major_page_faults is None
            &&& record.minor_page_faults is None
            &&& record.voluntary_ctx_switches is None
            &&& record.involuntary_ctx_switches is None
            &&& record.peak_n_threads is None
            &&& record.peak_n_procs == 0
        },
        record.loadavg_1m_start is None,
        record.loadavg_1m_end is None,
        record.page_cache_start is None,
        record.page_cache_end is None,
{
    lemma_worth(model.max_rss);
    lemma_worth(model.max_vms);
    lemma_optional_worth(model.max_uss);
    lemma_optional_worth(model.max_pss);
    lemma_optional_worth(model.total(Counter::BytesRead));
    lemma_optional_worth(model.total(Counter::BytesWritten));
}

/// A trace row shows memory and threads of the processes of its tick, I/O and CPU time of all
/// processes so far, the number of live processes, and what the event counts have grown by.
pub proof fn lemma_tick_shows_each_value(
    model: SamplerModel,
    tick: TickRecord,
    snapshots: Seq<ProcessSnapshot>,
    elapsed: Quantity,
)
    requires
        model.shows_tick(tick, snapshots, elapsed),
    ensures
        tick.elapsed == elapsed,
        worth_mebibytes(tick.rss, gauge_sum(snapshots, Gauge::Resident)),
        worth_mebibytes(tick.vms, gauge_sum(snapshots, Gauge::Virtual)),
        worth_optional_mebibytes(tick.uss, gauge_total(snapshots, Gauge::Unique)),
        worth_optional_mebibytes(tick.pss, gauge_total(snapshots, Gauge::Proportional)),
        worth_optional_mebibytes(tick.io_in, model.total(Counter::BytesRead)),
        worth_optional_mebibytes(tick.io_out, model.total(Counter::BytesWritten)),
        tick.cpu_time == cpu_total(model.accounts),
        tick.n_procs == snapshots.len(),
        tick.major_page_faults == tick_delta(model.baselines, snapshots, Event::MajorFaults),
        tick.minor_page_faults == tick_delta(model.baselines, snapshots, Event::MinorFaults),
        tick.voluntary_ctx_switches == tick_delta(
            model.baselines,
            snapshots,
            Event::VoluntarySwitches,
        ),
        tick.involuntary_ctx_switches == tick_delta(
            model.baselines,
            snapshots,
            Event::InvoluntarySwitches,
        ),
        tick.n_threads == gauge_total(snapshots, Gauge::Threads),
{
    lemma_worth(gauge_sum(snapshots, Gauge::Resident));
    lemma_worth(gauge_sum(snapshots, Gauge::Virtual));
    lemma_optional_worth(gauge_total(snapshots, Gauge::Unique));
    lemma_optional_worth(gauge_total(snapshots, Gauge::Proportional));
    lemma_optional_worth(model.total(Counter::BytesRead));
    lemma_optional_worth(model.total(Counter::BytesWritten));
}

/// Two readings together: their sum, at most the largest `u64`, where both are there, the one that
/// is there, or none.
pub open spec fn together(a: Option<u64>, b: Option<u64>) -> Option<u64> {
    match (a, b) {
        (Some(x), Some(y)) => if x + y <= u64::MAX {
            Some((x + y) as u64)
        } else {
            Some(u64::MAX)
        },
        (Some(x), None) => Some(x),
        (None, _) => b,
    }
}

/// The larger of two readings, of those that are there.
pub open spec fn most(a: Option<u64>, b: Option<u64>) -> Option<u64> {
    match (a, b) {
        (Some(x), Some(y)) => if x < y {
            Some(y)
        } else {
            Some(x)
        },
        (Some(x), None) => Some(x),
        (None, _) => b,
    }
}

proof fn lemma_column_push(column: Seq<Option<u64>>, reading: Option<u64>)
    ensures
        (if any_exposed(column.push(reading)) {
            Some(saturated(exposed_sum(column.push(reading))))
        } else {
            None
        }) == together(
            if any_exposed(column) {
                Some(saturated(exposed_sum(column)))
            } else {
                None
            },
            reading,
        ),
{
    let longer = column.push(reading);
    assert(longer.drop_last() =~= column);
    if any_exposed(column) {
        let i = choose|i: int| 0 <= i < column.len() && (#[trigger] column[i]) is Some;
        assert(longer[i] is Some);
    } else {
        lemma_nothing_exposed(column);
        if any_exposed(longer) {
            let i = choose|i: int| 0 <= i < longer.len() && (#[trigger] longer[i]) is Some;
            if i < column.len() {
                assert(column[i] is Some);
            }
        }
    }
    if reading is Some {
        assert(longer[column.len() as int] is Some);
    }
}

/// One more process in a tick adds its own memory and threads to the sums of the tick, and leaves a
/// sum as it was where it does not show that reading.
pub proof fn lemma_one_more_process_in_a_tick(
    snapshots: Seq<ProcessSnapshot>,
    snap: ProcessSnapshot,
)
    ensures
        ({
            let more = snapshots.push(snap);
            &&& Some(gauge_sum(more, Gauge::Resident)) == together(
                Some(gauge_sum(snapshots, Gauge::Resident)),
                Some(snap.rss_bytes),
            )
            &&& Some(gauge_sum(more, Gauge::Virtual)) == together(
                Some(gauge_sum(snapshots, Gauge::Virtual)),
                Some(snap.vms_bytes),
            )
            &&& gauge_total(more, Gauge::Resident) == Some(gauge_sum(more, Gauge::Resident))
            &&& gauge_total(more, Gauge::Virtual) == Some(gauge_sum(more, Gauge::Virtual))
            &&& gauge_total(more, Gauge::Unique) == together(
                gauge_total(snapshots, Gauge::Unique),
                snap.uss_bytes,
            )
            &&& gauge_total(more, Gauge::Proportional) == together(
                gauge_total(snapshots, Gauge::Proportional),
                snap.pss_bytes,
            )
            &&& gauge_total(more, Gauge::Threads) == together(
                gauge_total(snapshots, Gauge::Threads),
                snap.thread_count,
            )
        }),
        gauge_sum(Seq::empty(), Gauge::Resident) == 0,
        gauge_sum(Seq::empty(), Gauge::Virtual) == 0,
        gauge_total(Seq::empty(), Gauge::Unique) is None,
        gauge_total(Seq::empty(), Gauge::Proportional) is None,
        gauge_total(Seq::empty(), Gauge::Threads) is None,
{
    lemma_one_more_reading(snapshots, snap, Gauge::Resident);
    lemma_one_more_reading(snapshots, snap, Gauge::Virtual);
    lemma_one_more_reading(snapshots, snap, Gauge::Unique);
    lemma_one_more_reading(snapshots, snap, Gauge::Proportional);
    lemma_one_more_reading(snapshots, snap, Gauge::Threads);
    let none = Seq::<ProcessSnapshot>::empty();
    assert(gauge_column(none, Gauge::Resident) =~= Seq::empty());
    assert(gauge_column(none, Gauge::Virtual) =~= Seq::empty());
    assert(gauge_column(none, Gauge::Unique) =~= Seq::empty());
    assert(gauge_column(none, Gauge::Proportional) =~= Seq::empty());
    assert(gauge_column(none, Gauge::Threads) =~= Seq::empty());
}

proof fn lemma_one_more_reading(snapshots: Seq<ProcessSnapshot>, snap: ProcessSnapshot, g: Gauge)
    ensures
        gauge_column(snapshots.push(snap), g) == gauge_column(snapshots, g).push(snap.gauge(g)),
        gauge_total(snapshots.push(snap), g) == together(
            gauge_total(snapshots, g),
            snap.gauge(g),
        ),
        Some(gauge_sum(snapshots.push(snap), g)) == together(
            Some(gauge_sum(snapshots, g)),
            snap.gauge(g),
        ),
{
    let column = gauge_column(snapshots, g);
    assert(gauge_column(snapshots.push(snap), g) =~= column.push(snap.gauge(g)));
    lemma_column_push(column, snap.gauge(g));
    assert(column.push(snap.gauge(g)).drop_last() =~= column);
    if snap.gauge(g) is Some {
        assert(column.push(snap.gauge(g))[column.len() as int] is Some);
    }
}

/// A tick that shows a process raises each peak to the sum of that tick where that is larger, and
/// an empty tick changes nothing.
pub proof fn lemma_tick_raises_peaks(model: SamplerModel, snapshots: Seq<ProcessSnapshot>)
    requires
        snapshots.len() <= u64::MAX,
    ensures
        snapshots.len() == 0 ==> model.absorbed(snapshots) == model,
        snapshots.len() > 0 ==> {
            let after = model.absorbed(snapshots);
            &&& Some(after.max_rss) == most(
                Some(model.max_rss),
                Some(gauge_sum(snapshots, Gauge::Resident)),
            )
            &&& Some(after.max_vms) == most(
                Some(model.max_vms),
                Some(gauge_sum(snapshots, Gauge::Virtual)),
            )
            &&& after.max_uss == most(model.max_uss, gauge_total(snapshots, Gauge::Unique))
            &&& after.max_pss == most(model.max_pss, gauge_total(snapshots, Gauge::Proportional))
            &&& after.max_n_threads == most(
                model.max_n_threads,
                gauge_total(snapshots, Gauge::Threads),
            )
            &&& after.max_n_procs == if model.max_n_procs < snapshots.len() {
                snapshots.len()
            } else {
                model.max_n_procs as nat
            }
            &&& after.accounts == accounts_after(model.accounts, snapshots)
            &&& after.baselines == model.baselines
            &&& after.data_collected
        },
{
}

/// One more snapshot raises each count of the account of its process, and no other account. Of two
/// CPU times the longer stays.
pub proof fn lemma_one_more_snapshot_in_the_accounts(
    accounts: Map<i32, ProcessAccum>,
    snapshots: Seq<ProcessSnapshot>,
    snap: ProcessSnapshot,
    pid: i32,
)
    ensures
        accounts_after(accounts, Seq::empty()) == accounts,
        ({
            let before = accounts_after(accounts, snapshots);
            let after = accounts_after(accounts, snapshots.push(snap));
            let (a, b) = (account_of(before, snap.pid), account_of(after, snap.pid));
            &&& after.dom() == before.dom().insert(snap.pid)
            &&& pid != snap.pid ==> account_of(after, pid) == account_of(before, pid)
            &&& b.io_read_bytes == most(a.io_read_bytes, snap.io_read_bytes)
            &&& b.io_write_bytes == most(a.io_write_bytes, snap.io_write_bytes)
            &&& b.major_page_faults == most(a.major_page_faults, snap.major_page_faults)
            &&& b.minor_page_faults == most(a.minor_page_faults, snap.minor_page_faults)
            &&& b.voluntary_ctx_switches == most(
                a.voluntary_ctx_switches,
                snap.voluntary_ctx_switches,
            )
            &&& b.involuntary_ctx_switches == most(
                a.involuntary_ctx_switches,
                snap.involuntary_ctx_switches,
            )
            &&& b.cpu_time_seconds == if snap.cpu_time_seconds.exceeds(a.cpu_time_seconds) {
                snap.cpu_time_seconds
            } else {
                a.cpu_time_seconds
            }
        }),
        !accounts.contains_key(pid) ==> {
            let none = account_of(accounts, pid);
            &&& none.io_read_bytes is None
            &&& none.io_write_bytes is None
            &&& none.major_page_faults is None
            &&& none.minor_page_faults is None
            &&& none.voluntary_ctx_switches is None
            &&& none.involuntary_ctx_switches is None
            &&& none.cpu_time_seconds.bits == 0
        },
        accounts.contains_key(pid) ==> account_of(accounts, pid) == accounts[pid],
{
    let before = accounts_after(accounts, snapshots);
    let longer = snapshots.push(snap);
    assert(longer.drop_last() =~= snapshots);
    assert(longer.last() == snap);
    assert(accounts_after(accounts, longer).dom() =~= before.dom().insert(snap.pid));
}

/// One more process adds its own count to each total, and its bytes read only to the bytes read,
/// and so on; a process that never showed a count leaves that total as it was.
pub proof fn lemma_one_more_process_in_the_totals(
    model: SamplerModel,
    pid: i32,
    account: ProcessAccum,
)
    requires
        !model.accounts.contains_key(pid),
    ensures
        ({
            let more = SamplerModel { accounts: model.accounts.insert(pid, account), ..model };
            &&& more.total(Counter::BytesRead) == together(
                model.total(Counter::BytesRead),
                account.io_read_bytes,
            )
            &&& more.total(Counter::BytesWritten) == together(
                model.total(Counter::BytesWritten),
                account.io_write_bytes,
            )
            &&& more.total(Counter::Events(Event::MajorFaults)) == together(
                model.total(Counter::Events(Event::MajorFaults)),
                account.major_page_faults,
            )
            &&& more.total(Counter::Events(Event::MinorFaults)) == together(
                model.total(Counter::Events(Event::MinorFaults)),
                account.minor_page_faults,
            )
            &&& more.total(Counter::Events(Event::VoluntarySwitches)) == together(
                model.total(Counter::Events(Event::VoluntarySwitches)),
                account.voluntary_ctx_switches,
            )
            &&& more.total(Counter::Events(Event::InvoluntarySwitches)) == together(
                model.total(Counter::Events(Event::InvoluntarySwitches)),
                account.involuntary_ctx_switches,
            )
        }),
        forall|c: Counter| #[trigger] counter_total(Map::empty(), c) is None,
{
    lemma_one_more_count(model.accounts, pid, account, Counter::BytesRead);
    lemma_one_more_count(model.accounts, pid, account, Counter::BytesWritten);
    lemma_one_more_count(model.accounts, pid, account, Counter::Events(Event::MajorFaults));
    lemma_one_more_count(model.accounts, pid, account, Counter::Events(Event::MinorFaults));
    lemma_one_more_count(model.accounts, pid, account, Counter::Events(Event::VoluntarySwitches));
    lemma_one_more_count(model.accounts, pid, account, Counter::Events(Event::InvoluntarySwitches));
}

proof fn lemma_one_more_count(
    accounts: Map<i32, ProcessAccum>,
    pid: i32,
    account: ProcessAccum,
    c: Counter,
)
    requires
        !accounts.contains_key(pid),
    ensures
        counter_total(accounts.insert(pid, account), c) == together(
            counter_total(accounts, c),
            account.counter(c),
        ),
{
    let more = accounts.insert(pid, account);
    let (before, after) = (counter_amounts(accounts, c), counter_amounts(more, c));
    let value = amount(account.counter(c));
    assert(after =~= before.insert(pid, value));
    lemma_ledger_insert(before, pid, value);
    assert(before.remove(pid) =~= before);
    if ever_exposed(accounts, c) {
        let p = choose|p: i32| #[trigger] accounts.contains_key(p) && accounts[p].counter(c) is Some;
        assert(more.contains_key(p) && more[p].counter(c) is Some);
    } else {
        assert forall|p: i32| #[trigger] before.contains_key(p) implies before[p] == 0 by {
            assert(accounts.contains_key(p));
        }
        lemma_zero_ledger(before);
        if ever_exposed(more, c) {
            let p = choose|p: i32| #[trigger] more.contains_key(p) && more[p].counter(c) is Some;
            if p != pid {
                assert(accounts.contains_key(p));
            }
        }
    }
    if account.counter(c) is Some {
        assert(more.contains_key(pid) && more[pid].counter(c) is Some);
    }
}

/// The CPU time of a run is the sum over its processes, up to one rounding: exactly the time of the
/// process where there is only one, nothing where there is none, and near the exact sum of what all
/// of them add less what any with a minus sign take off. A time that is no number makes the sum no
/// number, and an infinite one makes it infinite.
#[verifier::spinoff_prover]
pub proof fn lemma_cpu_time_is_the_sum(accounts: Map<i32, ProcessAccum>, pid: i32)
    ensures
        cpu_total(Map::empty()).bits == 0,
        accounts.contains_key(pid) && accounts[pid].cpu_time_seconds.is_nan() ==> cpu_total(
            accounts,
        ).is_nan(),
        accounts.contains_key(pid) && accounts[pid].cpu_time_seconds.is_infinite() && (
        forall|p: i32| #[trigger]
            accounts.contains_key(p) ==> !accounts[p].cpu_time_seconds.is_nan() && (
            accounts[p].cpu_time_seconds.is_infinite() ==> accounts[p].cpu_time_seconds.minus()
                == accounts[pid].cpu_time_seconds.minus())) ==> cpu_total(accounts).is_infinite()
            && cpu_total(accounts).minus() == accounts[pid].cpu_time_seconds.minus(),
        accounts.contains_key(pid) && accounts[pid].cpu_time_seconds.is_infinite() && (
        exists|p: i32| #[trigger]
            accounts.contains_key(p) && accounts[p].cpu_time_seconds.is_infinite()
                && accounts[p].cpu_time_seconds.minus() != accounts[pid].cpu_time_seconds.minus())
            ==> cpu_total(accounts).is_nan(),
        (forall|p: i32| #[trigger]
            accounts.contains_key(p) ==> accounts[p].cpu_time_seconds.is_finite()) ==> {
            let r = cpu_total(accounts);
            let adds = ledger_sum(
                Map::new(
                    |p: i32| accounts.contains_key(p),
                    |p: i32|
                        if accounts[p].cpu_time_seconds.minus() {
                            0
                        } else {
                            accounts[p].cpu_time_seconds.over()
                        },
                ),
            );
            let takes = ledger_sum(
                Map::new(
                    |p: i32| accounts.contains_key(p),
                    |p: i32|
                        if accounts[p].cpu_time_seconds.minus() {
                            accounts[p].cpu_time_seconds.over()
                        } else {
                            0
                        },
                ),
            );
            let y = if adds >= takes {
                adds - takes
            } else {
                takes - adds
            };
            &&& r.minus() == (adds < takes)
            &&& r.is_finite() ==> 0x20_0000_0000_0000 * r.over() <= 0x20_0000_0000_0000 * y + y
                + 0x10_0000_0000_0000
            &&& r.is_finite() ==> 0x20_0000_0000_0000 * y <= 0x20_0000_0000_0000 * r.over() + y
                + 0x10_0000_0000_0000
            &&& !r.is_finite() ==> r.is_infinite() && y >= pow2(2097)
        },
{
    let empty = Map::<i32, ProcessAccum>::empty();
    lemma_nearest_is_duration();
    assert forall|p: i32| #[trigger] cpu_gains(empty).contains_key(p) implies cpu_gains(empty)[p]
        == 0 by {}
    assert forall|p: i32| #[trigger] cpu_losses(empty).contains_key(p) implies cpu_losses(empty)[p]
        == 0 by {}
    lemma_zero_ledger(cpu_gains(empty));
    lemma_zero_ledger(cpu_losses(empty));
    assert(nearest(0, pow2(1074)).bits == 0) by {
        lemma_exact_values_stay(Quantity::zero());
        assert(Quantity::zero().over() == 0) by {
            assert(Quantity::zero().steps() == 0);
            assert(0 * pow2(Quantity::zero().level()) == 0);
        }
    }
    if accounts.contains_key(pid) && accounts[pid].cpu_time_seconds.is_nan() {
        assert(is_special(accounts[pid].cpu_time_seconds, Special::NoNumber));
    }
    if accounts.contains_key(pid) && accounts[pid].cpu_time_seconds.is_infinite() {
        let this = if accounts[pid].cpu_time_seconds.minus() {
            Special::MinusInfinite
        } else {
            Special::Infinite
        };
        let other = if accounts[pid].cpu_time_seconds.minus() {
            Special::Infinite
        } else {
            Special::MinusInfinite
        };
        assert(is_special(accounts[pid].cpu_time_seconds, this));
        assert(ever_special(accounts, this));
        if exists|p: i32| #[trigger]
            accounts.contains_key(p) && accounts[p].cpu_time_seconds.is_infinite()
                && accounts[p].cpu_time_seconds.minus() != accounts[pid].cpu_time_seconds.minus() {
            let p = choose|p: i32| #[trigger]
                accounts.contains_key(p) && accounts[p].cpu_time_seconds.is_infinite()
                    && accounts[p].cpu_time_seconds.minus()
                    != accounts[pid].cpu_time_seconds.minus();
            assert(is_special(accounts[p].cpu_time_seconds, other));
            assert(ever_special(accounts, other));
        } else {
            assert(!ever_special(accounts, other));
        }
    }
    if forall|p: i32| #[trigger]
        accounts.contains_key(p) ==> accounts[p].cpu_time_seconds.is_finite() {
        assert(!ever_special(accounts, Special::Infinite));
        assert(!ever_special(accounts, Special::MinusInfinite));
        assert(!ever_special(accounts, Special::NoNumber));
        let up = Map::new(
            |p: i32| accounts.contains_key(p),
            |p: i32|
                if accounts[p].cpu_time_seconds.minus() {
                    0
                } else {
                    accounts[p].cpu_time_seconds.over()
                },
        );
        let down = Map::new(
            |p: i32| accounts.contains_key(p),
            |p: i32|
                if accounts[p].cpu_time_seconds.minus() {
                    accounts[p].cpu_time_seconds.over()
                } else {
                    0
                },
        );
        assert(cpu_gains(accounts) =~= up);
        assert(cpu_losses(accounts) =~= down);
        let (adds, takes) = (ledger_sum(up), ledger_sum(down));
        if adds >= takes {
            lemma_grains_are_near((adds - takes) as nat);
        } else {
            lemma_grains_are_near((takes - adds) as nat);
            lemma_turning_keeps_the_value(nearest((takes - adds) as nat, pow2(1074)));
        }
    }
}

/// The CPU time of a run with one process is the time of that process.
#[verifier::spinoff_prover]
pub proof fn lemma_cpu_time_of_one_process(pid: i32, account: ProcessAccum)
    requires
        !account.cpu_time_seconds.is_nan(),
        account.cpu_time_seconds.minus() ==> account.cpu_time_seconds.over() > 0
            || account.cpu_time_seconds.is_infinite(),
    ensures
        cpu_total(Map::empty().insert(pid, account)) == account.cpu_time_seconds,
{
    let time = account.cpu_time_seconds;
    let none = Map::<i32, ProcessAccum>::empty();
    let one = none.insert(pid, account);
    let g = pow2(1074);
    lemma_pow2_pos(1074);
    assert(one.contains_key(pid));
    if time.is_infinite() {
        if time.minus() {
            assert(is_special(one[pid].cpu_time_seconds, Special::MinusInfinite));
        } else {
            assert(is_special(one[pid].cpu_time_seconds, Special::Infinite));
        }
    } else {
        let nothing = Map::<i32, nat>::empty();
        assert(cpu_gains(one) =~= nothing.insert(pid, gain(time)));
        assert(cpu_losses(one) =~= nothing.insert(pid, loss(time)));
        lemma_ledger_insert(nothing, pid, gain(time));
        lemma_ledger_insert(nothing, pid, loss(time));
        assert(nothing.remove(pid) =~= nothing);
        lemma_zero_ledger(nothing);
        assert(!ever_special(one, Special::Infinite));
        assert(!ever_special(one, Special::MinusInfinite));
        assert(!ever_special(one, Special::NoNumber));
        let plain = if time.minus() {
            time.turned()
        } else {
            time
        };
        lemma_turning_keeps_the_value(time);
        lemma_exact_values_stay(plain);
        assert(nearest(plain.over(), g) == plain);
    }
}

/// How far a count that was at `before` has grown: nothing where it fell.
pub open spec fn grown(reading: Option<u64>, before: u64) -> Option<u64> {
    match reading {
        Some(v) => if v < before {
            Some(0)
        } else {
            Some((v - before) as u64)
        },
        None => None,
    }
}

/// One more process in a tick adds to each delta what its count has grown by since it was last
/// shown, and moves only its own baselines: to what it shows, and not at all where it shows nothing.
#[verifier::spinoff_prover]
pub proof fn lemma_one_more_process_in_the_deltas(
    baselines: Map<i32, PrevCumulative>,
    snapshots: Seq<ProcessSnapshot>,
    snap: ProcessSnapshot,
    pid: i32,
)
    ensures
        baselines_after(baselines, Seq::empty()) == baselines,
        forall|e: Event| #[trigger] tick_delta(baselines, Seq::empty(), e) is None,
        ({
            let more = snapshots.push(snap);
            let before = baselines_after(baselines, snapshots);
            let after = baselines_after(baselines, more);
            let (a, b) = (baseline_of(before, snap.pid), baseline_of(after, snap.pid));
            &&& tick_delta(baselines, more, Event::MajorFaults) == together(
                tick_delta(baselines, snapshots, Event::MajorFaults),
                grown(snap.major_page_faults, a.major_page_faults),
            )
            &&& tick_delta(baselines, more, Event::MinorFaults) == together(
                tick_delta(baselines, snapshots, Event::MinorFaults),
                grown(snap.minor_page_faults, a.minor_page_faults),
            )
            &&& tick_delta(baselines, more, Event::VoluntarySwitches) == together(
                tick_delta(baselines, snapshots, Event::VoluntarySwitches),
                grown(snap.voluntary_ctx_switches, a.voluntary_ctx_switches),
            )
            &&& tick_delta(baselines, more, Event::InvoluntarySwitches) == together(
                tick_delta(baselines, snapshots, Event::InvoluntarySwitches),
                grown(snap.involuntary_ctx_switches, a.involuntary_ctx_switches),
            )
            &&& pid != snap.pid ==> baseline_of(after, pid) == baseline_of(before, pid)
            &&& Some(b.major_page_faults) == if snap.major_page_faults is Some {
                snap.major_page_faults
            } else {
                Some(a.major_page_faults)
            }
            &&& Some(b.minor_page_faults) == if snap.minor_page_faults is Some {
                snap.minor_page_faults
            } else {
                Some(a.minor_page_faults)
            }
            &&& Some(b.voluntary_ctx_switches) == if snap.voluntary_ctx_switches is Some {
                snap.voluntary_ctx_switches
            } else {
                Some(a.voluntary_ctx_switches)
            }
            &&& Some(b.involuntary_ctx_switches) == if snap.involuntary_ctx_switches is Some {
                snap.involuntary_ctx_switches
            } else {
                Some(a.involuntary_ctx_switches)
            }
        }),
        !baselines.contains_key(pid) ==> {
            let none = baseline_of(baselines, pid);
            &&& none.major_page_faults == 0
            &&& none.minor_page_faults == 0
            &&& none.voluntary_ctx_switches == 0
            &&& none.involuntary_ctx_switches == 0
        },
        baselines.contains_key(pid) ==> baseline_of(baselines, pid) == baselines[pid],
{
    let more = snapshots.push(snap);
    assert(more.drop_last() =~= snapshots);
    assert(more.last() == snap);
    lemma_one_more_growth(baselines, snapshots, snap, Event::MajorFaults);
    lemma_one_more_growth(baselines, snapshots, snap, Event::MinorFaults);
    lemma_one_more_growth(baselines, snapshots, snap, Event::VoluntarySwitches);
    lemma_one_more_growth(baselines, snapshots, snap, Event::InvoluntarySwitches);
    assert forall|e: Event| #[trigger] tick_delta(baselines, Seq::empty(), e) is None by {
        assert(growth_column(baselines, Seq::empty(), e) =~= Seq::empty());
    }
}

proof fn lemma_one_more_growth(
    baselines: Map<i32, PrevCumulative>,
    snapshots: Seq<ProcessSnapshot>,
    snap: ProcessSnapshot,
    e: Event,
)
    ensures
        tick_delta(baselines, snapshots.push(snap), e) == together(
            tick_delta(baselines, snapshots, e),
            grown(
                snap.events(e),
                baseline_of(baselines_after(baselines, snapshots), snap.pid).events(e),
            ),
        ),
{
    let more = snapshots.push(snap);
    let (short, long) = (growth_column(baselines, snapshots, e), growth_column(baselines, more, e));
    let added = grown(
        snap.events(e),
        baseline_of(baselines_after(baselines, snapshots), snap.pid).events(e),
    );
    assert(more.take(snapshots.len() as int) =~= snapshots);
    assert forall|i: int| 0 <= i < long.len() implies long[i] == short.push(added)[i] by {
        if i < snapshots.len() {
            assert(more.take(i) =~= snapshots.take(i));
        }
    }
    assert(long =~= short.push(added));
    lemma_column_push(short, added);
}

/// Before the first tick nothing is known, and putting a tick on the trace moves the baselines and
/// nothing else.
pub proof fn lemma_fresh_and_ticked(model: SamplerModel, snapshots: Seq<ProcessSnapshot>)
    ensures
        ({
            let fresh = SamplerModel::fresh();
            &&& fresh.max_rss == 0
            &&& fresh.max_vms == 0
            &&& fresh.max_uss is None
            &&& fresh.max_pss is None
            &&& fresh.max_n_threads is None
            &&& fresh.max_n_procs == 0
            &&& fresh.accounts == Map::<i32, ProcessAccum>::empty()
            &&& fresh.baselines == Map::<i32, PrevCumulative>::empty()
            &&& !fresh.data_collected
        }),
        ({
            let after = model.ticked(snapshots);
            &&& after.max_rss == model.max_rss
            &&& after.max_vms == model.max_vms
            &&& after.max_uss == model.max_uss
            &&& after.max_pss == model.max_pss
            &&& after.max_n_threads == model.max_n_threads
            &&& after.max_n_procs == model.max_n_procs
            &&& after.accounts == model.accounts
            &&& after.baselines == baselines_after(model.baselines, snapshots)
            &&& after.data_collected == model.data_collected
        }),
{
}

/// A size that is shown in mebibytes, or not shown, is worth its bytes.
pub proof fn lemma_shown_size_is_worth_its_bytes(q: Option<Quantity>, bytes: Option<u64>)
    requires
        may_be_mebibytes(q, bytes),
    ensures
        worth_optional_mebibytes(q, bytes),
{
    lemma_optional_worth(bytes);
}

} // verus!

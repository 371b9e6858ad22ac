//! What holds of every run, whatever its ticks show.

use vstd::arithmetic::power2::{lemma_pow2_pos, pow2};
use vstd::prelude::*;

use super::account::{
    account_of, accounts_after, counter_amounts, cpu_gains, cpu_losses, cpu_total, ever_exposed,
    ever_special, gain, is_special, longer, loss, raised, ProcessAccum, Special,
};
use super::ledger::{ledger_sum, lemma_ledger_monotonic, lemma_ledger_net, lemma_zero_ledger};
use super::snapshot::{gauge_column, Counter, Gauge, ProcessSnapshot};
use super::state::{gauge_sum, gauge_total, is_mebibytes, SamplerModel};
use super::tally::amount;
use crate::quantity::{
    lemma_bits_order_values, lemma_nearest_is_duration, lemma_nearest_monotonic,
    lemma_net_monotonic, Quantity, BYTES_PER_MIB, GRAIN,
};
use crate::record::{BenchmarkRecord, TickRecord};

verus! {

/// `pid` is among the processes of a tick.
pub open spec fn shows_pid(snapshots: Seq<ProcessSnapshot>, pid: i32) -> bool {
    exists|i: int| 0 <= i < snapshots.len() && (#[trigger] snapshots[i]).pid == pid
}

/// The aggregate after a whole run of ticks.
pub open spec fn after_run(ticks: Seq<Seq<ProcessSnapshot>>) -> SamplerModel
    decreases ticks.len(),
{
    if ticks.len() == 0 {
        SamplerModel::fresh()
    } else {
        after_run(ticks.drop_last()).absorbed(ticks.last())
    }
}

proof fn lemma_shows_pid_step(snapshots: Seq<ProcessSnapshot>, pid: i32)
    requires
        snapshots.len() > 0,
    ensures
        shows_pid(snapshots, pid) == (shows_pid(snapshots.drop_last(), pid)
            || snapshots.last().pid == pid),
{
    let front = snapshots.drop_last();
    if shows_pid(front, pid) {
        let i = choose|i: int| 0 <= i < front.len() && (#[trigger] front[i]).pid == pid;
        assert(snapshots[i].pid == pid);
    }
    if shows_pid(snapshots, pid) && snapshots.last().pid != pid {
        let i = choose|i: int| 0 <= i < snapshots.len() && (#[trigger] snapshots[i]).pid == pid;
        assert(front[i].pid == pid);
    }
    if snapshots.last().pid == pid {
        assert(snapshots[snapshots.len() - 1].pid == pid);
    }
}

/// A process that a tick does not show, such as one that has exited, keeps its account as it
/// was; one that it shows has an account afterwards.
pub proof fn lemma_exited_process_is_kept(
    accounts: Map<i32, ProcessAccum>,
    snapshots: Seq<ProcessSnapshot>,
    pid: i32,
)
    ensures
        accounts_after(accounts, snapshots).contains_key(pid) == (accounts.contains_key(pid)
            || shows_pid(snapshots, pid)),
        !shows_pid(snapshots, pid) ==> account_of(accounts_after(accounts, snapshots), pid)
            == account_of(accounts, pid),
    decreases snapshots.len(),
{
    if snapshots.len() > 0 {
        lemma_shows_pid_step(snapshots, pid);
        lemma_exited_process_is_kept(accounts, snapshots.drop_last(), pid);
    }
}

/// After a tick an account holds the largest value of each count: none of the tick's readings
/// of the process, nor what was there before, is larger, and it is one of them.
pub proof fn lemma_account_is_the_maximum(
    accounts: Map<i32, ProcessAccum>,
    snapshots: Seq<ProcessSnapshot>,
    pid: i32,
    c: Counter,
)
    ensures
        ({
            let before = account_of(accounts, pid).counter(c);
            let after = account_of(accounts_after(accounts, snapshots), pid).counter(c);
            &&& amount(before) <= amount(after)
            &&& before is Some ==> after is Some
            &&& forall|i: int|
                0 <= i < snapshots.len() && (#[trigger] snapshots[i]).pid == pid
                    && snapshots[i].counter(c) is Some ==> after is Some && amount(
                    snapshots[i].counter(c),
                ) <= amount(after)
            &&& after == before || exists|i: int|
                0 <= i < snapshots.len() && (#[trigger] snapshots[i]).pid == pid
                    && snapshots[i].counter(c) == after
        }),
    decreases snapshots.len(),
{
    if snapshots.len() > 0 {
        let front = snapshots.drop_last();
        lemma_account_is_the_maximum(accounts, front, pid, c);
        let before = account_of(accounts, pid).counter(c);
        let middle = account_of(accounts_after(accounts, front), pid).counter(c);
        let after = account_of(accounts_after(accounts, snapshots), pid).counter(c);
        let last = snapshots.last();
        assert(after == if last.pid == pid {
            raised(middle, last.counter(c))
        } else {
            middle
        });
        assert forall|i: int|
            0 <= i < snapshots.len() && (#[trigger] snapshots[i]).pid == pid
                && snapshots[i].counter(c) is Some implies after is Some && amount(
            snapshots[i].counter(c),
        ) <= amount(after) by {
            if i < front.len() {
                assert(front[i] == snapshots[i]);
            }
        }
        if after != before {
            if after == middle {
                let i = choose|i: int|
                    0 <= i < front.len() && (#[trigger] front[i]).pid == pid
                        && front[i].counter(c) == middle;
                assert(snapshots[i].counter(c) == after);
            } else {
                assert(snapshots[snapshots.len() - 1].counter(c) == after);
            }
        }
    }
}

/// A finite time that is not exceeded adds no more, less what it takes off.
proof fn lemma_net_grows(before: Quantity, after: Quantity)
    requires
        !before.exceeds(after),
        before.is_finite(),
        after.is_finite(),
    ensures
        gain(before) + loss(after) <= gain(after) + loss(before),
{
    lemma_bits_order_values(before, after);
    lemma_nothing_is_zero(before);
    lemma_nothing_is_zero(after);
}

/// What has no magnitude has no grains.
proof fn lemma_nothing_is_zero(time: Quantity)
    ensures
        time.magnitude() == 0 ==> time.over() == 0,
{
    if time.magnitude() == 0 {
        assert(time.steps() == 0);
        assert(0 * pow2(time.level()) == 0);
    }
}

/// Totals never fall from one tick to the next: what an exited process did stays counted, and a
/// count once observed stays observed.
pub proof fn lemma_totals_never_fall(model: SamplerModel, snapshots: Seq<ProcessSnapshot>, c: Counter)
    ensures
        amount(model.total(c)) <= amount(model.absorbed(snapshots).total(c)),
        model.total(c) is Some ==> model.absorbed(snapshots).total(c) is Some,
        !cpu_total(model.accounts).exceeds(cpu_total(model.absorbed(snapshots).accounts)),
        holds_times(model.accounts) ==> !cpu_total(model.accounts).is_nan() && !cpu_total(
            model.accounts,
        ).minus(),
        holds_times(model.accounts) ==> !cpu_total(model.absorbed(snapshots).accounts).is_nan()
            && !cpu_total(model.absorbed(snapshots).accounts).minus(),
{
    let before = model.accounts;
    let after = model.absorbed(snapshots).accounts;
    assert forall|pid: i32| #[trigger] before.contains_key(pid) implies after.contains_key(pid)
        && amount(before[pid].counter(c)) <= amount(after[pid].counter(c)) && (
    before[pid].counter(c) is Some ==> after[pid].counter(c) is Some) by {
        lemma_exited_process_is_kept(before, snapshots, pid);
        lemma_account_is_the_maximum(before, snapshots, pid, c);
    }
    assert forall|pid: i32| #[trigger]
        counter_amounts(before, c).contains_key(pid) implies counter_amounts(
        after,
        c,
    ).contains_key(pid) && counter_amounts(before, c)[pid] <= counter_amounts(after, c)[pid] by {
        assert(before.contains_key(pid));
    }
    lemma_ledger_monotonic(counter_amounts(before, c), counter_amounts(after, c));
    lemma_cpu_total_never_falls(before, snapshots);
    if holds_times(before) {
        lemma_times_are_kept(before, snapshots);
        lemma_cpu_total_is_a_duration(before);
        lemma_cpu_total_is_a_duration(after);
    }
    if ever_exposed(before, c) {
        let pid = choose|pid: i32| #[trigger]
            before.contains_key(pid) && before[pid].counter(c) is Some;
        assert(after.contains_key(pid));
    }
}

/// The total of CPU times never falls.
proof fn lemma_cpu_total_never_falls(
    before: Map<i32, ProcessAccum>,
    snapshots: Seq<ProcessSnapshot>,
)
    ensures
        !cpu_total(before).exceeds(cpu_total(accounts_after(before, snapshots))),
{
    let after = accounts_after(before, snapshots);
    assert forall|pid: i32| #[trigger] before.contains_key(pid) implies after.contains_key(pid)
        && !before[pid].cpu_time_seconds.exceeds(after[pid].cpu_time_seconds)
        && before[pid].cpu_time_seconds.is_nan() == after[pid].cpu_time_seconds.is_nan() by {
        lemma_exited_process_is_kept(before, snapshots, pid);
        lemma_account_time_is_the_longest(before, snapshots, pid);
    }
    assert forall|pid: i32| #[trigger]
        after.contains_key(pid) && !before.contains_key(pid) implies !after[pid].cpu_time_seconds.is_nan()
        && !after[pid].cpu_time_seconds.minus() by {
        lemma_new_time_is_a_duration(before, snapshots, pid);
    }
    if ever_special(before, Special::Infinite) {
        let pid = choose|pid: i32| #[trigger]
            before.contains_key(pid) && is_special(
                before[pid].cpu_time_seconds,
                Special::Infinite,
            );
        assert(after.contains_key(pid));
        assert(is_special(after[pid].cpu_time_seconds, Special::Infinite));
    }
    if ever_special(after, Special::NoNumber) {
        let pid = choose|pid: i32| #[trigger]
            after.contains_key(pid) && is_special(after[pid].cpu_time_seconds, Special::NoNumber);
        assert(before.contains_key(pid));
    }
    if ever_special(after, Special::MinusInfinite) {
        let pid = choose|pid: i32| #[trigger]
            after.contains_key(pid) && is_special(
                after[pid].cpu_time_seconds,
                Special::MinusInfinite,
            );
        assert(before.contains_key(pid));
        assert(is_special(before[pid].cpu_time_seconds, Special::MinusInfinite));
    }
    if !ever_special(before, Special::Infinite) && !ever_special(before, Special::MinusInfinite)
        && !ever_special(before, Special::NoNumber) && !ever_special(after, Special::Infinite) {
        assert forall|pid: i32| #[trigger] before.contains_key(pid) implies gain(
            before[pid].cpu_time_seconds,
        ) + loss(after[pid].cpu_time_seconds) <= gain(after[pid].cpu_time_seconds) + loss(
            before[pid].cpu_time_seconds,
        ) by {
            assert(after.contains_key(pid));
            assert(!is_special(before[pid].cpu_time_seconds, Special::Infinite));
            assert(!is_special(before[pid].cpu_time_seconds, Special::MinusInfinite));
            assert(!is_special(before[pid].cpu_time_seconds, Special::NoNumber));
            assert(!is_special(after[pid].cpu_time_seconds, Special::Infinite));
            assert(!is_special(after[pid].cpu_time_seconds, Special::MinusInfinite));
            lemma_net_grows(before[pid].cpu_time_seconds, after[pid].cpu_time_seconds);
        }
        let (gains, losses) = (cpu_gains(before), cpu_losses(before));
        let (more, fewer) = (cpu_gains(after), cpu_losses(after));
        assert(gains.dom() =~= losses.dom());
        assert(more.dom() =~= fewer.dom());
        assert forall|pid: i32| #[trigger]
            gains.contains_key(pid) implies more.contains_key(pid) && gains[pid] + fewer[pid]
            <= more[pid] + losses[pid] by {
            assert(before.contains_key(pid));
            assert(after.contains_key(pid));
        }
        assert forall|pid: i32| #[trigger]
            more.contains_key(pid) && !gains.contains_key(pid) implies fewer[pid] == 0 by {
            assert(after.contains_key(pid) && !before.contains_key(pid));
        }
        lemma_ledger_net(gains, losses, more, fewer);
        lemma_pow2_pos(GRAIN as nat);
        lemma_net_monotonic(
            ledger_sum(gains),
            ledger_sum(losses),
            ledger_sum(more),
            ledger_sum(fewer),
            pow2(GRAIN as nat),
        );
    }
}

/// A process that had no account gets one whose time is a number and not negative.
proof fn lemma_new_time_is_a_duration(
    accounts: Map<i32, ProcessAccum>,
    snapshots: Seq<ProcessSnapshot>,
    pid: i32,
)
    requires
        !accounts.contains_key(pid),
    ensures
        !account_of(accounts_after(accounts, snapshots), pid).cpu_time_seconds.is_nan(),
        !account_of(accounts_after(accounts, snapshots), pid).cpu_time_seconds.minus(),
    decreases snapshots.len(),
{
    if snapshots.len() > 0 {
        lemma_new_time_is_a_duration(accounts, snapshots.drop_last(), pid);
    }
}

/// Where every account holds a number that is not negative, so does the total.
pub proof fn lemma_cpu_total_is_a_duration(accounts: Map<i32, ProcessAccum>)
    requires
        holds_times(accounts),
    ensures
        !cpu_total(accounts).is_nan(),
        !cpu_total(accounts).minus(),
{
    assert forall|pid: i32| #[trigger]
        accounts.contains_key(pid) implies !accounts[pid].cpu_time_seconds.minus()
        && !accounts[pid].cpu_time_seconds.is_nan() by {
        assert(!account_of(accounts, pid).cpu_time_seconds.minus());
    }
    assert forall|pid: i32| #[trigger]
        cpu_losses(accounts).contains_key(pid) implies cpu_losses(accounts)[pid] == 0 by {
        assert(accounts.contains_key(pid));
    }
    lemma_zero_ledger(cpu_losses(accounts));
    lemma_nearest_is_duration();
}

/// More bytes are no fewer mebibytes.
proof fn lemma_mebibytes_never_fall(first: u64, second: u64, a: Quantity, b: Quantity)
    requires
        first <= second,
        is_mebibytes(a, first),
        is_mebibytes(b, second),
    ensures
        !a.exceeds(b),
        !a.is_nan(),
        !b.is_nan(),
{
    let (x, y) = (Quantity::of(first as nat), Quantity::of(second as nat));
    lemma_nearest_is_duration();
    lemma_nearest_monotonic(first as nat, second as nat, 1);
    let parts = pow2(GRAIN as nat) * BYTES_PER_MIB as nat;
    assert(parts > 0) by (nonlinear_arith)
        requires
            parts == pow2(GRAIN as nat) * BYTES_PER_MIB as nat,
            pow2(GRAIN as nat) > 0,
            BYTES_PER_MIB > 0,
    ;
    if x.is_finite() && y.is_finite() {
        lemma_bits_order_values(x, y);
        lemma_nearest_monotonic(x.over(), y.over(), parts);
    }
}

/// Peaks never fall, and no tick is above them.
pub proof fn lemma_peaks_never_fall(model: SamplerModel, snapshots: Seq<ProcessSnapshot>)
    ensures
        model.max_rss <= model.absorbed(snapshots).max_rss,
        model.max_vms <= model.absorbed(snapshots).max_vms,
        amount(model.max_uss) <= amount(model.absorbed(snapshots).max_uss),
        amount(model.max_pss) <= amount(model.absorbed(snapshots).max_pss),
        amount(model.max_n_threads) <= amount(model.absorbed(snapshots).max_n_threads),
        model.max_n_procs <= model.absorbed(snapshots).max_n_procs,
        0 < snapshots.len() <= u64::MAX ==> snapshots.len() <= model.absorbed(
            snapshots,
        ).max_n_procs,
        snapshots.len() > 0 ==> {
            &&& gauge_sum(snapshots, Gauge::Resident) <= model.absorbed(snapshots).max_rss
            &&& gauge_sum(snapshots, Gauge::Virtual) <= model.absorbed(snapshots).max_vms
            &&& amount(gauge_total(snapshots, Gauge::Unique)) <= amount(
                model.absorbed(snapshots).max_uss,
            )
            &&& amount(gauge_total(snapshots, Gauge::Proportional)) <= amount(
                model.absorbed(snapshots).max_pss,
            )
            &&& amount(gauge_total(snapshots, Gauge::Threads)) <= amount(
                model.absorbed(snapshots).max_n_threads,
            )
        },
{
}

/// From one trace row to the next, I/O and CPU time never fall, and I/O that was shown stays
/// shown.
pub proof fn lemma_rows_never_fall(
    model: SamplerModel,
    first: TickRecord,
    first_seen: Seq<ProcessSnapshot>,
    first_at: Quantity,
    second: TickRecord,
    second_seen: Seq<ProcessSnapshot>,
    second_at: Quantity,
)
    requires
        model.shows_tick(first, first_seen, first_at),
        model.ticked(first_seen).absorbed(second_seen).shows_tick(second, second_seen, second_at),
    ensures
        !first.cpu_time.exceeds(second.cpu_time),
        holds_times(model.accounts) ==> !first.cpu_time.is_nan() && !second.cpu_time.is_nan(),
        first.io_in matches Some(a) ==> (second.io_in matches Some(b) && !a.is_nan()
            && !b.is_nan() && !a.exceeds(b)),
        first.io_out matches Some(a) ==> (second.io_out matches Some(b) && !a.is_nan()
            && !b.is_nan() && !a.exceeds(b)),
{
    let between = model.ticked(first_seen);
    lemma_totals_never_fall(between, second_seen, Counter::BytesRead);
    lemma_totals_never_fall(between, second_seen, Counter::BytesWritten);
    lemma_nearest_is_duration();
    let later = between.absorbed(second_seen);
    if let (Some(a), Some(b)) = (
        between.total(Counter::BytesRead),
        later.total(Counter::BytesRead),
    ) {
        lemma_mebibytes_never_fall(a, b, first.io_in->0, second.io_in->0);
    }
    if let (Some(a), Some(b)) = (
        between.total(Counter::BytesWritten),
        later.total(Counter::BytesWritten),
    ) {
        lemma_mebibytes_never_fall(a, b, first.io_out->0, second.io_out->0);
    }
}

/// Putting a tick on the trace leaves the aggregate record as it was.
pub proof fn lemma_trace_leaves_record(
    model: SamplerModel,
    snapshots: Seq<ProcessSnapshot>,
    record: BenchmarkRecord,
    wall: Quantity,
)
    ensures
        model.ticked(snapshots).shows_record(record, wall) == model.shows_record(record, wall),
{
}

impl SamplerModel {
    /// The peak of `g`, or `None` where it was never observed.
    pub open spec fn peak(self, g: Gauge) -> Option<u64> {
        match g {
            Gauge::Resident => if self.data_collected {
                Some(self.max_rss)
            } else {
                None
            },
            Gauge::Virtual => if self.data_collected {
                Some(self.max_vms)
            } else {
                None
            },
            Gauge::Unique => self.max_uss,
            Gauge::Proportional => self.max_pss,
            Gauge::Threads => self.max_n_threads,
        }
    }
}

/// A tick that shows a process shows its resident and virtual size.
proof fn lemma_sizes_are_exposed(snapshots: Seq<ProcessSnapshot>, g: Gauge)
    requires
        g == Gauge::Resident || g == Gauge::Virtual,
    ensures
        gauge_total(snapshots, g) == if snapshots.len() > 0 {
            Some(gauge_sum(snapshots, g))
        } else {
            None
        },
{
    if snapshots.len() > 0 {
        assert(gauge_column(snapshots, g)[0] is Some);
    }
}

/// No tick without processes exposes anything.
proof fn lemma_empty_tick_exposes_nothing(snapshots: Seq<ProcessSnapshot>, g: Gauge)
    requires
        snapshots.len() == 0,
    ensures
        gauge_total(snapshots, g) is None,
{
}

/// Until data is collected the aggregate is as fresh as at the start.
proof fn lemma_fresh_until_collected(ticks: Seq<Seq<ProcessSnapshot>>)
    ensures
        !after_run(ticks).data_collected ==> after_run(ticks) == SamplerModel::fresh(),
    decreases ticks.len(),
{
    if ticks.len() > 0 {
        lemma_fresh_until_collected(ticks.drop_last());
    }
}

/// One more tick raises each peak to at least its own sum.
proof fn lemma_peak_step(ticks: Seq<Seq<ProcessSnapshot>>, g: Gauge)
    requires
        ticks.len() > 0,
    ensures
        after_run(ticks).peak(g) == raised(
            after_run(ticks.drop_last()).peak(g),
            gauge_total(ticks.last(), g),
        ),
{
    let last = ticks.last();
    lemma_fresh_until_collected(ticks.drop_last());
    if last.len() == 0 {
        lemma_empty_tick_exposes_nothing(last, g);
    }
    if g == Gauge::Resident || g == Gauge::Virtual {
        lemma_sizes_are_exposed(last, g);
    }
}

/// Over a whole run each peak is the largest of the per-tick sums over the live tree: it is
/// there exactly where some tick exposed the reading, no tick is above it, and some tick
/// reaches it.
pub proof fn lemma_peak_is_the_largest_tick(ticks: Seq<Seq<ProcessSnapshot>>, g: Gauge)
    ensures
        ({
            let peak = after_run(ticks).peak(g);
            &&& forall|i: int|
                0 <= i < ticks.len() && gauge_total(#[trigger] ticks[i], g) is Some ==> peak is Some
                    && amount(gauge_total(ticks[i], g)) <= amount(peak)
            &&& peak is Some ==> exists|i: int|
                0 <= i < ticks.len() && gauge_total(#[trigger] ticks[i], g) == peak
        }),
    decreases ticks.len(),
{
    if ticks.len() > 0 {
        let front = ticks.drop_last();
        let peak = after_run(ticks).peak(g);
        lemma_peak_is_the_largest_tick(front, g);
        lemma_peak_step(ticks, g);
        assert forall|i: int|
            0 <= i < ticks.len() && gauge_total(#[trigger] ticks[i], g) is Some implies peak is Some
            && amount(gauge_total(ticks[i], g)) <= amount(peak) by {
            if i < front.len() {
                assert(front[i] == ticks[i]);
            }
        }
        if peak is Some {
            if peak == after_run(front).peak(g) {
                let i = choose|i: int|
                    0 <= i < front.len() && gauge_total(#[trigger] front[i], g) == peak;
                assert(gauge_total(ticks[i], g) == peak);
            } else {
                assert(gauge_total(ticks[ticks.len() - 1], g) == peak);
            }
        }
    }
}

/// A run has data exactly where some tick showed a process.
pub proof fn lemma_data_collected_iff_seen(ticks: Seq<Seq<ProcessSnapshot>>)
    ensures
        after_run(ticks).data_collected == exists|i: int|
            0 <= i < ticks.len() && (#[trigger] ticks[i]).len() > 0,
{
    lemma_peak_is_the_largest_tick(ticks, Gauge::Resident);
    assert forall|i: int| 0 <= i < ticks.len() implies ((#[trigger] ticks[i]).len() > 0)
        == gauge_total(ticks[i], Gauge::Resident) is Some by {
        lemma_sizes_are_exposed(ticks[i], Gauge::Resident);
    }
}

/// The process `pid` shows `c` somewhere in a run.
pub open spec fn run_shows(ticks: Seq<Seq<ProcessSnapshot>>, pid: i32, c: Counter) -> bool {
    exists|i: int, j: int|
        0 <= i < ticks.len() && 0 <= j < ticks[i].len() && (#[trigger] ticks[i][j]).pid == pid
            && ticks[i][j].counter(c) is Some
}

/// Over a whole run an account holds the largest reading of each count that its process ever
/// showed, also where the process exited long before the end.
pub proof fn lemma_account_over_run(ticks: Seq<Seq<ProcessSnapshot>>, pid: i32, c: Counter)
    ensures
        ({
            let kept = account_of(after_run(ticks).accounts, pid).counter(c);
            &&& forall|i: int, j: int|
                0 <= i < ticks.len() && 0 <= j < ticks[i].len() && (#[trigger] ticks[i][j]).pid
                    == pid && ticks[i][j].counter(c) is Some ==> kept is Some && amount(
                    ticks[i][j].counter(c),
                ) <= amount(kept)
            &&& kept is Some ==> exists|i: int, j: int|
                0 <= i < ticks.len() && 0 <= j < ticks[i].len() && (#[trigger] ticks[i][j]).pid
                    == pid && ticks[i][j].counter(c) == kept
        }),
    decreases ticks.len(),
{
    if ticks.len() > 0 {
        let front = ticks.drop_last();
        let last = ticks.last();
        let kept = account_of(after_run(ticks).accounts, pid).counter(c);
        let earlier = account_of(after_run(front).accounts, pid).counter(c);
        lemma_account_over_run(front, pid, c);
        lemma_account_is_the_maximum(after_run(front).accounts, last, pid, c);
        assert(after_run(ticks).accounts == accounts_after(after_run(front).accounts, last));
        assert forall|i: int, j: int|
            0 <= i < ticks.len() && 0 <= j < ticks[i].len() && (#[trigger] ticks[i][j]).pid == pid
                && ticks[i][j].counter(c) is Some implies kept is Some && amount(
            ticks[i][j].counter(c),
        ) <= amount(kept) by {
            if i < front.len() {
                assert(front[i][j] == ticks[i][j]);
            } else {
                assert(last[j] == ticks[i][j]);
            }
        }
        if kept is Some {
            if kept == earlier {
                let (i, j) = choose|i: int, j: int|
                    0 <= i < front.len() && 0 <= j < front[i].len() && (#[trigger] front[i][j]).pid
                        == pid && front[i][j].counter(c) == kept;
                assert(ticks[i][j].counter(c) == kept);
            } else {
                let j = choose|j: int|
                    0 <= j < last.len() && (#[trigger] last[j]).pid == pid && last[j].counter(c)
                        == kept;
                assert(ticks[ticks.len() - 1][j].counter(c) == kept);
            }
        }
    }
}

/// The process `pid` is among those that a run shows.
pub open spec fn run_shows_pid(ticks: Seq<Seq<ProcessSnapshot>>, pid: i32) -> bool {
    exists|i: int, j: int|
        0 <= i < ticks.len() && 0 <= j < ticks[i].len() && (#[trigger] ticks[i][j]).pid == pid
}

/// After a tick an account holds the longest CPU time: none of the tick's readings of the process
/// exceeds it, and it is one of them or what was there before.
proof fn lemma_account_time_is_the_longest(
    accounts: Map<i32, ProcessAccum>,
    snapshots: Seq<ProcessSnapshot>,
    pid: i32,
)
    ensures
        ({
            let before = account_of(accounts, pid).cpu_time_seconds;
            let after = account_of(accounts_after(accounts, snapshots), pid).cpu_time_seconds;
            &&& !before.exceeds(after)
            &&& before.is_nan() == after.is_nan()
            &&& forall|i: int|
                0 <= i < snapshots.len() && (#[trigger] snapshots[i]).pid == pid
                    ==> !snapshots[i].cpu_time_seconds.exceeds(after)
            &&& after == before || exists|i: int|
                0 <= i < snapshots.len() && (#[trigger] snapshots[i]).pid == pid
                    && snapshots[i].cpu_time_seconds == after
        }),
    decreases snapshots.len(),
{
    if snapshots.len() > 0 {
        let front = snapshots.drop_last();
        let last = snapshots.last();
        lemma_account_time_is_the_longest(accounts, front, pid);
        let before = account_of(accounts, pid).cpu_time_seconds;
        let middle = account_of(accounts_after(accounts, front), pid).cpu_time_seconds;
        let after = account_of(accounts_after(accounts, snapshots), pid).cpu_time_seconds;
        assert(after == if last.pid == pid {
            longer(middle, last.cpu_time_seconds)
        } else {
            middle
        });
        assert forall|i: int|
            0 <= i < snapshots.len() && (#[trigger] snapshots[i]).pid == pid implies !snapshots[i].cpu_time_seconds.exceeds(
        after) by {
            if i < front.len() {
                assert(front[i] == snapshots[i]);
            }
        }
        if after != before {
            if after == middle {
                let i = choose|i: int|
                    0 <= i < front.len() && (#[trigger] front[i]).pid == pid
                        && front[i].cpu_time_seconds == middle;
                assert(snapshots[i].cpu_time_seconds == after);
            } else {
                assert(snapshots[snapshots.len() - 1].cpu_time_seconds == after);
            }
        }
    }
}

/// Over a whole run there is an account exactly for each process that was shown, and it holds the
/// longest CPU time of that process: no snapshot exceeds it, and where a snapshot shows a time
/// that is a number and not negative, one of them shows exactly what the account holds.
pub proof fn lemma_cpu_time_over_run(ticks: Seq<Seq<ProcessSnapshot>>, pid: i32)
    ensures
        ({
            let kept = account_of(after_run(ticks).accounts, pid).cpu_time_seconds;
            &&& after_run(ticks).accounts.contains_key(pid) <==> run_shows_pid(ticks, pid)
            &&& !kept.minus() && !kept.is_nan()
            &&& forall|i: int, j: int|
                0 <= i < ticks.len() && 0 <= j < ticks[i].len() && (#[trigger] ticks[i][j]).pid
                    == pid ==> !ticks[i][j].cpu_time_seconds.exceeds(kept)
            &&& (exists|i: int, j: int|
                0 <= i < ticks.len() && 0 <= j < ticks[i].len() && (#[trigger] ticks[i][j]).pid
                    == pid && !ticks[i][j].cpu_time_seconds.minus()
                    && !ticks[i][j].cpu_time_seconds.is_nan()) ==> exists|i: int, j: int|
                0 <= i < ticks.len() && 0 <= j < ticks[i].len() && (#[trigger] ticks[i][j]).pid
                    == pid && ticks[i][j].cpu_time_seconds == kept
        }),
{
    lemma_run_holds_times(ticks);
    lemma_times_are_reached(ticks, pid);
    let kept = account_of(after_run(ticks).accounts, pid).cpu_time_seconds;
    if exists|i: int, j: int|
        0 <= i < ticks.len() && 0 <= j < ticks[i].len() && (#[trigger] ticks[i][j]).pid == pid
            && !ticks[i][j].cpu_time_seconds.minus() && !ticks[i][j].cpu_time_seconds.is_nan() {
        let (i, j) = choose|i: int, j: int|
            0 <= i < ticks.len() && 0 <= j < ticks[i].len() && (#[trigger] ticks[i][j]).pid == pid
                && !ticks[i][j].cpu_time_seconds.minus()
                && !ticks[i][j].cpu_time_seconds.is_nan();
        if kept == Quantity::zero() {
            // Nothing exceeds zero, so that this reading is zero too.
            assert(ticks[i][j].cpu_time_seconds.bits == 0);
            assert(ticks[i][j].cpu_time_seconds == kept);
        }
    }
}

proof fn lemma_times_are_reached(ticks: Seq<Seq<ProcessSnapshot>>, pid: i32)
    ensures
        ({
            let kept = account_of(after_run(ticks).accounts, pid).cpu_time_seconds;
            &&& after_run(ticks).accounts.contains_key(pid) <==> run_shows_pid(ticks, pid)
            &&& forall|i: int, j: int|
                0 <= i < ticks.len() && 0 <= j < ticks[i].len() && (#[trigger] ticks[i][j]).pid
                    == pid ==> !ticks[i][j].cpu_time_seconds.exceeds(kept)
            &&& kept == Quantity::zero() || exists|i: int, j: int|
                0 <= i < ticks.len() && 0 <= j < ticks[i].len() && (#[trigger] ticks[i][j]).pid
                    == pid && ticks[i][j].cpu_time_seconds == kept
        }),
    decreases ticks.len(),
{
    if ticks.len() > 0 {
        let front = ticks.drop_last();
        let last = ticks.last();
        let earlier = account_of(after_run(front).accounts, pid).cpu_time_seconds;
        let kept = account_of(after_run(ticks).accounts, pid).cpu_time_seconds;
        lemma_times_are_reached(front, pid);
        lemma_run_holds_times(front);
        lemma_account_time_is_the_longest(after_run(front).accounts, last, pid);
        lemma_exited_process_is_kept(after_run(front).accounts, last, pid);
        assert(after_run(ticks).accounts == accounts_after(after_run(front).accounts, last));
        assert forall|i: int, j: int|
            0 <= i < ticks.len() && 0 <= j < ticks[i].len() && (#[trigger] ticks[i][j]).pid
                == pid implies !ticks[i][j].cpu_time_seconds.exceeds(kept) by {
            if i < front.len() {
                assert(front[i][j] == ticks[i][j]);
            } else {
                assert(last[j] == ticks[i][j]);
            }
        }
        if run_shows_pid(front, pid) {
            let (i, j) = choose|i: int, j: int|
                0 <= i < front.len() && 0 <= j < front[i].len() && (#[trigger] front[i][j]).pid
                    == pid;
            assert(ticks[i][j].pid == pid);
        }
        if shows_pid(last, pid) {
            let j = choose|j: int| 0 <= j < last.len() && (#[trigger] last[j]).pid == pid;
            assert(ticks[ticks.len() - 1][j].pid == pid);
        }
        if run_shows_pid(ticks, pid) && !run_shows_pid(front, pid) {
            let (i, j) = choose|i: int, j: int|
                0 <= i < ticks.len() && 0 <= j < ticks[i].len() && (#[trigger] ticks[i][j]).pid
                    == pid;
            if i < front.len() {
                assert(front[i][j].pid == pid);
            }
            assert(last[j].pid == pid);
        }
        if kept != Quantity::zero() {
            if kept == earlier {
                let (i, j) = choose|i: int, j: int|
                    0 <= i < front.len() && 0 <= j < front[i].len() && (#[trigger] front[i][j]).pid
                        == pid && front[i][j].cpu_time_seconds == kept;
                assert(ticks[i][j].cpu_time_seconds == kept);
            } else {
                let j = choose|j: int|
                    0 <= j < last.len() && (#[trigger] last[j]).pid == pid
                        && last[j].cpu_time_seconds == kept;
                assert(ticks[ticks.len() - 1][j].cpu_time_seconds == kept);
            }
        }
    }
}

/// A total is there exactly where some process of the run exposed the count: "never observed"
/// is not "observed as zero", and one count observed says nothing of another.
pub proof fn lemma_total_iff_exposed(ticks: Seq<Seq<ProcessSnapshot>>, c: Counter)
    ensures
        after_run(ticks).total(c) is Some <==> exists|pid: i32| #[trigger] run_shows(ticks, pid, c),
{
    let accounts = after_run(ticks).accounts;
    if ever_exposed(accounts, c) {
        let pid = choose|pid: i32| #[trigger]
            accounts.contains_key(pid) && accounts[pid].counter(c) is Some;
        lemma_account_over_run(ticks, pid, c);
        assert(run_shows(ticks, pid, c));
    }
    if exists|pid: i32| #[trigger] run_shows(ticks, pid, c) {
        let pid = choose|pid: i32| #[trigger] run_shows(ticks, pid, c);
        lemma_account_over_run(ticks, pid, c);
        assert(accounts.contains_key(pid) && accounts[pid].counter(c) is Some);
    }
}

/// The accounts after one snapshot.
spec fn entered(accounts: Map<i32, ProcessAccum>, snap: ProcessSnapshot) -> Map<i32, ProcessAccum> {
    accounts.insert(snap.pid, account_of(accounts, snap.pid).with(snap))
}

/// Every account holds a time that is a number and not negative, as all do that a run has made.
pub open spec fn holds_times(accounts: Map<i32, ProcessAccum>) -> bool {
    forall|pid: i32|
        !(#[trigger] account_of(accounts, pid)).cpu_time_seconds.minus() && !account_of(
            accounts,
            pid,
        ).cpu_time_seconds.is_nan()
}

/// Whatever snapshots are entered, every account goes on holding a time that is a number and not
/// negative.
pub proof fn lemma_times_are_kept(accounts: Map<i32, ProcessAccum>, snapshots: Seq<ProcessSnapshot>)
    requires
        holds_times(accounts),
    ensures
        holds_times(accounts_after(accounts, snapshots)),
    decreases snapshots.len(),
{
    if snapshots.len() > 0 {
        let front = snapshots.drop_last();
        let last = snapshots.last();
        lemma_times_are_kept(accounts, front);
        let before = accounts_after(accounts, front);
        assert forall|pid: i32|
            !(#[trigger] account_of(accounts_after(accounts, snapshots), pid)).cpu_time_seconds.minus()
                && !account_of(
                accounts_after(accounts, snapshots),
                pid,
            ).cpu_time_seconds.is_nan() by {
            let kept = account_of(before, pid);
        }
    }
}

/// Every run makes accounts whose times are numbers and not negative.
pub proof fn lemma_run_holds_times(ticks: Seq<Seq<ProcessSnapshot>>)
    ensures
        holds_times(after_run(ticks).accounts),
    decreases ticks.len(),
{
    if ticks.len() > 0 {
        lemma_run_holds_times(ticks.drop_last());
        lemma_times_are_kept(after_run(ticks.drop_last()).accounts, ticks.last());
    }
}

proof fn lemma_longer_commutes(kept: Quantity, a: Quantity, b: Quantity)
    requires
        !kept.minus(),
        !kept.is_nan(),
    ensures
        longer(longer(kept, a), b) == longer(longer(kept, b), a),
        longer(longer(kept, a), a) == longer(kept, a),
{
}

proof fn lemma_raised_commutes(kept: Option<u64>, a: Option<u64>, b: Option<u64>)
    ensures
        raised(raised(kept, a), b) == raised(raised(kept, b), a),
        raised(raised(kept, a), a) == raised(kept, a),
{
}

proof fn lemma_accounting_commutes(account: ProcessAccum, a: ProcessSnapshot, b: ProcessSnapshot)
    requires
        !account.cpu_time_seconds.minus(),
        !account.cpu_time_seconds.is_nan(),
    ensures
        account.with(a).with(b) == account.with(b).with(a),
        account.with(a).with(a) == account.with(a),
{
    lemma_longer_commutes(account.cpu_time_seconds, a.cpu_time_seconds, b.cpu_time_seconds);
    lemma_raised_commutes(account.io_read_bytes, a.io_read_bytes, b.io_read_bytes);
    lemma_raised_commutes(account.io_write_bytes, a.io_write_bytes, b.io_write_bytes);
    lemma_raised_commutes(account.major_page_faults, a.major_page_faults, b.major_page_faults);
    lemma_raised_commutes(account.minor_page_faults, a.minor_page_faults, b.minor_page_faults);
    lemma_raised_commutes(
        account.voluntary_ctx_switches,
        a.voluntary_ctx_switches,
        b.voluntary_ctx_switches,
    );
    lemma_raised_commutes(
        account.involuntary_ctx_switches,
        a.involuntary_ctx_switches,
        b.involuntary_ctx_switches,
    );
}

proof fn lemma_entering_commutes(
    accounts: Map<i32, ProcessAccum>,
    a: ProcessSnapshot,
    b: ProcessSnapshot,
)
    requires
        holds_times(accounts),
    ensures
        entered(entered(accounts, a), b) == entered(entered(accounts, b), a),
        entered(entered(accounts, a), a) == entered(accounts, a),
{
    let account = account_of(accounts, a.pid);
    lemma_accounting_commutes(account, a, b);
    assert(entered(entered(accounts, a), a) =~= entered(accounts, a));
    if a.pid == b.pid {
        assert(entered(entered(accounts, a), b) =~= accounts.insert(
            a.pid,
            account.with(a).with(b),
        ));
        assert(entered(entered(accounts, b), a) =~= accounts.insert(
            a.pid,
            account.with(b).with(a),
        ));
    } else {
        let left = account.with(a);
        let right = account_of(accounts, b.pid).with(b);
        assert(entered(entered(accounts, a), b) == accounts.insert(a.pid, left).insert(
            b.pid,
            right,
        ));
        assert(entered(entered(accounts, b), a) == accounts.insert(b.pid, right).insert(
            a.pid,
            left,
        ));
        assert(accounts.insert(a.pid, left).insert(b.pid, right) =~= accounts.insert(
            b.pid,
            right,
        ).insert(a.pid, left));
    }
}

proof fn lemma_entering_early(
    accounts: Map<i32, ProcessAccum>,
    snapshots: Seq<ProcessSnapshot>,
    snap: ProcessSnapshot,
)
    requires
        holds_times(accounts),
    ensures
        accounts_after(entered(accounts, snap), snapshots) == entered(
            accounts_after(accounts, snapshots),
            snap,
        ),
    decreases snapshots.len(),
{
    if snapshots.len() > 0 {
        let front = snapshots.drop_last();
        lemma_entering_early(accounts, front, snap);
        lemma_times_are_kept(accounts, front);
        lemma_entering_commutes(accounts_after(accounts, front), snap, snapshots.last());
        assert(accounts_after(accounts, snapshots) == entered(
            accounts_after(accounts, front),
            snapshots.last(),
        ));
        assert(accounts_after(entered(accounts, snap), snapshots) == entered(
            accounts_after(entered(accounts, snap), front),
            snapshots.last(),
        ));
    }
}

proof fn lemma_accounts_commute(
    accounts: Map<i32, ProcessAccum>,
    a: Seq<ProcessSnapshot>,
    b: Seq<ProcessSnapshot>,
)
    requires
        holds_times(accounts),
    ensures
        accounts_after(accounts_after(accounts, a), b) == accounts_after(
            accounts_after(accounts, b),
            a,
        ),
    decreases b.len(),
{
    if b.len() > 0 {
        let front = b.drop_last();
        lemma_accounts_commute(accounts, a, front);
        lemma_times_are_kept(accounts, front);
        lemma_entering_early(accounts_after(accounts, front), a, b.last());
        assert(accounts_after(accounts, b) == entered(accounts_after(accounts, front), b.last()));
        assert(accounts_after(accounts_after(accounts, a), b) == entered(
            accounts_after(accounts_after(accounts, a), front),
            b.last(),
        ));
    }
}

/// The order in which two ticks are absorbed does not matter.
pub proof fn lemma_ticks_commute(
    model: SamplerModel,
    a: Seq<ProcessSnapshot>,
    b: Seq<ProcessSnapshot>,
)
    requires
        holds_times(model.accounts),
    ensures
        model.absorbed(a).absorbed(b) == model.absorbed(b).absorbed(a),
{
    lemma_accounts_commute(model.accounts, a, b);
    assert(model.absorbed(a).absorbed(b) =~= model.absorbed(b).absorbed(a));
}

/// Absorbing the same tick once more changes nothing.
pub proof fn lemma_absorbing_twice(model: SamplerModel, snapshots: Seq<ProcessSnapshot>)
    ensures
        model.absorbed(snapshots).absorbed(snapshots) == model.absorbed(snapshots),
{
    let once = accounts_after(model.accounts, snapshots);
    assert forall|i: int| 0 <= i < snapshots.len() implies entered(once, #[trigger] snapshots[i])
        == once by {
        lemma_entered_is_settled(model.accounts, snapshots, i);
    }
    lemma_reentering(once, snapshots);
    assert(model.absorbed(snapshots).absorbed(snapshots) =~= model.absorbed(snapshots));
}

/// A snapshot that was entered changes nothing when it is entered again.
proof fn lemma_entered_is_settled(
    accounts: Map<i32, ProcessAccum>,
    snapshots: Seq<ProcessSnapshot>,
    i: int,
)
    requires
        0 <= i < snapshots.len(),
    ensures
        entered(accounts_after(accounts, snapshots), snapshots[i]) == accounts_after(
            accounts,
            snapshots,
        ),
    decreases snapshots.len(),
{
    let front = snapshots.drop_last();
    let last = snapshots.last();
    let snap = snapshots[i];
    let before = accounts_after(accounts, front);
    let after = entered(before, last);
    assert(accounts_after(accounts, snapshots) == after);
    if i < front.len() {
        lemma_entered_is_settled(accounts, front, i);
        assert(front[i] == snap);
        assert(entered(before, snap)[snap.pid] == before[snap.pid]);
        assert(before.contains_key(snap.pid)) by {
            assert(entered(before, snap).contains_key(snap.pid));
        }
        lemma_settled_stays(before[snap.pid], snap, last);
    } else {
        lemma_settled_stays(account_of(before, last.pid), last, last);
    }
    assert(account_of(after, snap.pid).with(snap) == account_of(after, snap.pid));
    assert(entered(after, snap) =~= after);
}

/// An account that a snapshot does not change is not changed by it later either.
proof fn lemma_settled_stays(account: ProcessAccum, snap: ProcessSnapshot, later: ProcessSnapshot)
    ensures
        account.with(snap) == account ==> account.with(later).with(snap) == account.with(later),
        account.with(later).with(later) == account.with(later),
{
    lemma_raised_settles(account.io_read_bytes, snap.io_read_bytes, later.io_read_bytes);
    lemma_raised_settles(account.io_write_bytes, snap.io_write_bytes, later.io_write_bytes);
    lemma_raised_settles(
        account.major_page_faults,
        snap.major_page_faults,
        later.major_page_faults,
    );
    lemma_raised_settles(
        account.minor_page_faults,
        snap.minor_page_faults,
        later.minor_page_faults,
    );
    lemma_raised_settles(
        account.voluntary_ctx_switches,
        snap.voluntary_ctx_switches,
        later.voluntary_ctx_switches,
    );
    lemma_raised_settles(
        account.involuntary_ctx_switches,
        snap.involuntary_ctx_switches,
        later.involuntary_ctx_switches,
    );
    lemma_longer_settles(
        account.cpu_time_seconds,
        snap.cpu_time_seconds,
        later.cpu_time_seconds,
    );
}

proof fn lemma_raised_settles(kept: Option<u64>, a: Option<u64>, b: Option<u64>)
    ensures
        raised(kept, a) == kept ==> raised(raised(kept, b), a) == raised(kept, b),
        raised(raised(kept, b), b) == raised(kept, b),
{
}

proof fn lemma_longer_settles(kept: Quantity, a: Quantity, b: Quantity)
    ensures
        longer(kept, a) == kept ==> longer(longer(kept, b), a) == longer(kept, b),
        longer(longer(kept, b), b) == longer(kept, b),
{
}

/// Snapshots that change nothing one by one change nothing together.
proof fn lemma_reentering(accounts: Map<i32, ProcessAccum>, snapshots: Seq<ProcessSnapshot>)
    ensures
        (forall|i: int|
            0 <= i < snapshots.len() ==> entered(accounts, #[trigger] snapshots[i]) == accounts)
            ==> accounts_after(accounts, snapshots) == accounts,
    decreases snapshots.len(),
{
    if snapshots.len() > 0 {
        let front = snapshots.drop_last();
        lemma_reentering(accounts, front);
        if forall|i: int|
            0 <= i < snapshots.len() ==> entered(accounts, #[trigger] snapshots[i]) == accounts {
            assert forall|i: int| 0 <= i < front.len() implies entered(
                accounts,
                #[trigger] front[i],
            ) == accounts by {
                assert(front[i] == snapshots[i]);
            }
            assert(entered(accounts, snapshots[snapshots.len() - 1]) == accounts);
            assert(accounts_after(accounts, snapshots) == entered(
                accounts_after(accounts, front),
                snapshots.last(),
            ));
        }
    }
}

} // verus!

//! What holds of the growth that a trace shows, tick by tick.

use vstd::prelude::*;

use super::account::{account_of, accounts_after, counter_amounts, counter_total, ProcessAccum};
use super::delta::{
    baseline_of, baselines_after, growth, growth_column, tick_delta, PrevCumulative,
};
use super::laws::shows_pid;
use super::ledger::{ledger_sum, lemma_ledger_insert, lemma_ledger_take, lemma_zero_ledger};
use super::snapshot::{Counter, Event, ProcessSnapshot};
use super::state::SamplerModel;
use super::tally::{amount, any_exposed, exposed_sum};

verus! {

/// The growth of a count is no larger than the count itself, also where a process id is used
/// again and the count starts anew: it never wraps round.
pub proof fn lemma_growth_is_bounded(reading: Option<u64>, before: u64)
    ensures
        amount(growth(reading, before)) <= amount(reading),
        growth(reading, before) is Some <==> reading is Some,
        amount(reading) <= before ==> amount(growth(reading, before)) == 0,
{
}

/// A tick shows growth of a count exactly where one of its processes exposes the count.
pub proof fn lemma_delta_iff_exposed(
    baselines: Map<i32, PrevCumulative>,
    snapshots: Seq<ProcessSnapshot>,
    e: Event,
)
    ensures
        tick_delta(baselines, snapshots, e) is Some <==> exists|i: int|
            0 <= i < snapshots.len() && (#[trigger] snapshots[i]).events(e) is Some,
{
    let column = growth_column(baselines, snapshots, e);
    assert(column.len() == snapshots.len());
    assert forall|i: int| 0 <= i < snapshots.len() implies ((#[trigger] column[i]) is Some)
        == snapshots[i].events(e) is Some by {}
    if any_exposed(column) {
        let i = choose|i: int| 0 <= i < column.len() && (#[trigger] column[i]) is Some;
        assert(snapshots[i].events(e) is Some);
    }
    if exists|i: int| 0 <= i < snapshots.len() && (#[trigger] snapshots[i]).events(e) is Some {
        let i = choose|i: int|
            0 <= i < snapshots.len() && (#[trigger] snapshots[i]).events(e) is Some;
        assert(column[i] is Some);
    }
}

/// A process that drops out of a tick keeps the counts that its next tick is compared with, so
/// that it shows its own growth when it comes back, and not its whole count.
pub proof fn lemma_dropped_out_keeps_baseline(
    baselines: Map<i32, PrevCumulative>,
    snapshots: Seq<ProcessSnapshot>,
    pid: i32,
)
    requires
        !shows_pid(snapshots, pid),
    ensures
        baseline_of(baselines_after(baselines, snapshots), pid) == baseline_of(baselines, pid),
    decreases snapshots.len(),
{
    if snapshots.len() > 0 {
        let front = snapshots.drop_last();
        assert(snapshots[snapshots.len() - 1].pid != pid);
        if shows_pid(front, pid) {
            let i = choose|i: int| 0 <= i < front.len() && (#[trigger] front[i]).pid == pid;
            assert(snapshots[i].pid == pid);
        }
        lemma_dropped_out_keeps_baseline(baselines, front, pid);
    }
}

/// No process is shown twice in a tick.
pub open spec fn distinct_pids(snapshots: Seq<ProcessSnapshot>) -> bool {
    forall|i: int, j: int|
        0 <= i < j < snapshots.len() ==> (#[trigger] snapshots[i]).pid != (#[trigger] snapshots[j]).pid
}

/// After a tick the baseline of each process shown is its own snapshot.
proof fn lemma_baseline_is_the_snapshot(
    baselines: Map<i32, PrevCumulative>,
    snapshots: Seq<ProcessSnapshot>,
    i: int,
)
    requires
        distinct_pids(snapshots),
        0 <= i < snapshots.len(),
    ensures
        baselines_after(baselines, snapshots).contains_key(snapshots[i].pid),
        baselines_after(baselines, snapshots)[snapshots[i].pid] == baseline_of(
            baselines,
            snapshots[i].pid,
        ).advanced(snapshots[i]),
    decreases snapshots.len(),
{
    let front = snapshots.drop_last();
    assert forall|a: int, b: int| 0 <= a < b < front.len() implies (#[trigger] front[a]).pid
        != (#[trigger] front[b]).pid by {
        assert(snapshots[a].pid != snapshots[b].pid);
    }
    if i < front.len() {
        lemma_baseline_is_the_snapshot(baselines, front, i);
        assert(snapshots[i].pid != snapshots[snapshots.len() - 1].pid);
    } else {
        let pid = snapshots[i].pid;
        if shows_pid(front, pid) {
            let k = choose|k: int| 0 <= k < front.len() && (#[trigger] front[k]).pid == pid;
            assert(snapshots[k].pid != snapshots[i].pid);
        }
        lemma_dropped_out_keeps_baseline(baselines, front, pid);
    }
}

/// Baselines that a tick has moved are not moved by it again.
proof fn lemma_settled_baselines(
    settled: Map<i32, PrevCumulative>,
    snapshots: Seq<ProcessSnapshot>,
)
    requires
        forall|i: int|
            0 <= i < snapshots.len() ==> settled.contains_key((#[trigger] snapshots[i]).pid)
                && settled[snapshots[i].pid].advanced(snapshots[i]) == settled[snapshots[i].pid],
    ensures
        baselines_after(settled, snapshots) == settled,
    decreases snapshots.len(),
{
    if snapshots.len() > 0 {
        let front = snapshots.drop_last();
        assert forall|i: int| 0 <= i < front.len() implies settled.contains_key(
            (#[trigger] front[i]).pid,
        ) && settled[front[i].pid].advanced(front[i]) == settled[front[i].pid] by {
            assert(front[i] == snapshots[i]);
        }
        lemma_settled_baselines(settled, front);
        let last = snapshots[snapshots.len() - 1];
        assert(settled.contains_key(last.pid));
        assert(settled.insert(last.pid, settled[last.pid]) =~= settled);
    }
}

/// A tick that is put on the trace a second time moves no baseline and shows no growth: nothing
/// where a count is exposed, and no value where it is not.
pub proof fn lemma_same_tick_shows_no_growth(
    baselines: Map<i32, PrevCumulative>,
    snapshots: Seq<ProcessSnapshot>,
    e: Event,
)
    requires
        distinct_pids(snapshots),
    ensures
        baselines_after(baselines_after(baselines, snapshots), snapshots) == baselines_after(
            baselines,
            snapshots,
        ),
        tick_delta(baselines_after(baselines, snapshots), snapshots, e) == if exists|i: int|
            0 <= i < snapshots.len() && (#[trigger] snapshots[i]).events(e) is Some {
            Some(0u64)
        } else {
            None
        },
{
    let settled = baselines_after(baselines, snapshots);
    assert forall|i: int| 0 <= i < snapshots.len() implies settled.contains_key(
        (#[trigger] snapshots[i]).pid,
    ) && settled[snapshots[i].pid].advanced(snapshots[i]) == settled[snapshots[i].pid]
        && settled[snapshots[i].pid].events(e) == (match snapshots[i].events(e) {
        Some(v) => v,
        None => settled[snapshots[i].pid].events(e),
    }) by {
        lemma_baseline_is_the_snapshot(baselines, snapshots, i);
    }
    lemma_settled_baselines(settled, snapshots);
    lemma_delta_iff_exposed(settled, snapshots, e);
    let column = growth_column(settled, snapshots, e);
    assert forall|i: int| 0 <= i < column.len() implies amount(#[trigger] column[i]) == 0 by {
        let start = snapshots.take(i);
        assert forall|k: int| 0 <= k < start.len() implies settled.contains_key(
            (#[trigger] start[k]).pid,
        ) && settled[start[k].pid].advanced(start[k]) == settled[start[k].pid] by {
            assert(start[k] == snapshots[k]);
        }
        lemma_settled_baselines(settled, start);
        assert(settled.contains_key(snapshots[i].pid));
    }
    lemma_all_zero(column);
}

proof fn lemma_all_zero(readings: Seq<Option<u64>>)
    requires
        forall|i: int| 0 <= i < readings.len() ==> amount(#[trigger] readings[i]) == 0,
    ensures
        exposed_sum(readings) == 0,
    decreases readings.len(),
{
    if readings.len() > 0 {
        let front = readings.drop_last();
        assert(amount(readings[readings.len() - 1]) == 0);
        assert forall|i: int| 0 <= i < front.len() implies amount(#[trigger] front[i]) == 0 by {
            assert(front[i] == readings[i]);
        }
        lemma_all_zero(front);
    }
}

/// The baselines of the trace and the accounts of the aggregate hold the same counts of `e`.
pub open spec fn in_step(
    accounts: Map<i32, ProcessAccum>,
    baselines: Map<i32, PrevCumulative>,
    e: Event,
) -> bool {
    forall|pid: i32|
        (#[trigger] baseline_of(baselines, pid)).events(e) == amount(
            account_of(accounts, pid).counter(Counter::Events(e)),
        )
}

/// No snapshot of a tick shows less of `e` than its process has shown before, as holds where no
/// process id is used again.
pub open spec fn never_falls(
    accounts: Map<i32, ProcessAccum>,
    snapshots: Seq<ProcessSnapshot>,
    e: Event,
) -> bool {
    forall|i: int|
        0 <= i < snapshots.len() && (#[trigger] snapshots[i]).events(e) is Some ==> amount(
            account_of(
                accounts_after(accounts, snapshots.take(i)),
                snapshots[i].pid,
            ).counter(Counter::Events(e)),
        ) <= amount(snapshots[i].events(e))
}

/// One more account changes the sum by what it adds.
proof fn lemma_sum_step(
    accounts: Map<i32, ProcessAccum>,
    pid: i32,
    account: ProcessAccum,
    c: Counter,
)
    ensures
        ledger_sum(counter_amounts(accounts.insert(pid, account), c)) + amount(
            account_of(accounts, pid).counter(c),
        ) == ledger_sum(counter_amounts(accounts, c)) + amount(account.counter(c)),
{
    let amounts = counter_amounts(accounts, c);
    assert(counter_amounts(accounts.insert(pid, account), c) =~= amounts.insert(
        pid,
        amount(account.counter(c)),
    ));
    lemma_ledger_insert(amounts, pid, amount(account.counter(c)));
    if accounts.contains_key(pid) {
        assert(amounts.contains_key(pid));
        lemma_ledger_take(amounts, pid);
    } else {
        assert(amounts.remove(pid) =~= amounts);
    }
}

/// The growth of a tick without its last snapshot.
proof fn lemma_growth_front(
    baselines: Map<i32, PrevCumulative>,
    snapshots: Seq<ProcessSnapshot>,
    e: Event,
)
    requires
        snapshots.len() > 0,
    ensures
        growth_column(baselines, snapshots, e).drop_last() == growth_column(
            baselines,
            snapshots.drop_last(),
            e,
        ),
        growth_column(baselines, snapshots, e).last() == growth(
            snapshots.last().events(e),
            baseline_of(
                baselines_after(baselines, snapshots.drop_last()),
                snapshots.last().pid,
            ).events(e),
        ),
{
    let front = snapshots.drop_last();
    assert(snapshots.take(snapshots.len() - 1) =~= front);
    assert forall|i: int| 0 <= i < front.len() implies growth_column(
        baselines,
        snapshots,
        e,
    )[i] == growth_column(baselines, front, e)[i] by {
        assert(front.take(i) =~= snapshots.take(i));
    }
    assert(growth_column(baselines, snapshots, e).drop_last() =~= growth_column(
        baselines,
        front,
        e,
    ));
}

/// Where no count falls, the growth that a tick shows is what the tick adds to the aggregate,
/// and trace and aggregate stay in step.
pub proof fn lemma_growth_is_what_the_tick_adds(
    accounts: Map<i32, ProcessAccum>,
    baselines: Map<i32, PrevCumulative>,
    snapshots: Seq<ProcessSnapshot>,
    e: Event,
)
    requires
        in_step(accounts, baselines, e),
        never_falls(accounts, snapshots, e),
    ensures
        exposed_sum(growth_column(baselines, snapshots, e)) + ledger_sum(
            counter_amounts(accounts, Counter::Events(e)),
        ) == ledger_sum(
            counter_amounts(accounts_after(accounts, snapshots), Counter::Events(e)),
        ),
        in_step(accounts_after(accounts, snapshots), baselines_after(baselines, snapshots), e),
    decreases snapshots.len(),
{
    let c = Counter::Events(e);
    if snapshots.len() > 0 {
        let front = snapshots.drop_last();
        let last = snapshots.last();
        assert(snapshots.take(snapshots.len() - 1) =~= front);
        assert forall|i: int|
            0 <= i < front.len() && (#[trigger] front[i]).events(e) is Some implies amount(
            account_of(accounts_after(accounts, front.take(i)), front[i].pid).counter(c),
        ) <= amount(front[i].events(e)) by {
            assert(front.take(i) =~= snapshots.take(i));
            assert(front[i] == snapshots[i]);
        }
        lemma_growth_is_what_the_tick_adds(accounts, baselines, front, e);
        lemma_growth_front(baselines, snapshots, e);
        let kept = accounts_after(accounts, front);
        let before = baselines_after(baselines, front);
        let account = account_of(kept, last.pid).with(last);
        lemma_sum_step(kept, last.pid, account, c);
        assert(last == snapshots[snapshots.len() - 1]);
        assert(baseline_of(before, last.pid).events(e) == amount(
            account_of(kept, last.pid).counter(c),
        ));
        assert forall|pid: i32|
            (#[trigger] baseline_of(baselines_after(baselines, snapshots), pid)).events(e)
                == amount(account_of(accounts_after(accounts, snapshots), pid).counter(c)) by {
            assert(baseline_of(before, pid).events(e) == amount(account_of(kept, pid).counter(c)));
        }
    } else {
        assert(growth_column(baselines, snapshots, e) =~= Seq::empty());
    }
}

/// The aggregate after a run whose every tick was put on the trace.
pub open spec fn after_traced_run(ticks: Seq<Seq<ProcessSnapshot>>) -> SamplerModel
    decreases ticks.len(),
{
    if ticks.len() == 0 {
        SamplerModel::fresh()
    } else {
        after_traced_run(ticks.drop_last()).absorbed(ticks.last()).ticked(ticks.last())
    }
}

/// The growth of `e` that the trace of a run shows, over all its ticks.
pub open spec fn traced_growth(ticks: Seq<Seq<ProcessSnapshot>>, e: Event) -> nat
    decreases ticks.len(),
{
    if ticks.len() == 0 {
        0
    } else {
        traced_growth(ticks.drop_last(), e) + amount(
            tick_delta(after_traced_run(ticks.drop_last()).baselines, ticks.last(), e),
        )
    }
}

/// No tick of a run shows less of `e` for a process than was shown of it before.
pub open spec fn run_never_falls(ticks: Seq<Seq<ProcessSnapshot>>, e: Event) -> bool
    decreases ticks.len(),
{
    ticks.len() == 0 || (run_never_falls(ticks.drop_last(), e) && never_falls(
        after_traced_run(ticks.drop_last()).accounts,
        ticks.last(),
        e,
    ))
}

/// What a tick shows is the growth itself where it fits in a `u64`.
proof fn lemma_unsaturated_delta(
    baselines: Map<i32, PrevCumulative>,
    snapshots: Seq<ProcessSnapshot>,
    e: Event,
)
    requires
        exposed_sum(growth_column(baselines, snapshots, e)) <= u64::MAX,
    ensures
        amount(tick_delta(baselines, snapshots, e)) == exposed_sum(
            growth_column(baselines, snapshots, e),
        ),
{
    let column = growth_column(baselines, snapshots, e);
    if !any_exposed(column) {
        lemma_nothing_exposed(column);
    }
}

/// Readings of which none is there add up to nothing.
pub proof fn lemma_nothing_exposed(readings: Seq<Option<u64>>)
    requires
        !any_exposed(readings),
    ensures
        exposed_sum(readings) == 0,
{
    lemma_all_zero(readings);
}

proof fn lemma_trace_adds_up_unsaturated(ticks: Seq<Seq<ProcessSnapshot>>, e: Event)
    requires
        run_never_falls(ticks, e),
        ledger_sum(counter_amounts(after_traced_run(ticks).accounts, Counter::Events(e)))
            <= u64::MAX,
    ensures
        traced_growth(ticks, e) == ledger_sum(
            counter_amounts(after_traced_run(ticks).accounts, Counter::Events(e)),
        ),
        in_step(after_traced_run(ticks).accounts, after_traced_run(ticks).baselines, e),
    decreases ticks.len(),
{
    let c = Counter::Events(e);
    if ticks.len() > 0 {
        let front = ticks.drop_last();
        let last = ticks.last();
        let before = after_traced_run(front);
        lemma_steps_stay(front, e);
        lemma_growth_is_what_the_tick_adds(before.accounts, before.baselines, last, e);
        assert(after_traced_run(ticks).accounts == accounts_after(before.accounts, last));
        lemma_trace_adds_up_unsaturated(front, e);
        lemma_unsaturated_delta(before.baselines, last, e);
    } else {
        assert(counter_amounts(Map::empty(), c) =~= Map::empty());
    }
}

/// Trace and aggregate stay in step over a run.
proof fn lemma_steps_stay(ticks: Seq<Seq<ProcessSnapshot>>, e: Event)
    requires
        run_never_falls(ticks, e),
    ensures
        in_step(after_traced_run(ticks).accounts, after_traced_run(ticks).baselines, e),
    decreases ticks.len(),
{
    if ticks.len() > 0 {
        let before = after_traced_run(ticks.drop_last());
        lemma_steps_stay(ticks.drop_last(), e);
        lemma_growth_is_what_the_tick_adds(before.accounts, before.baselines, ticks.last(), e);
        assert(after_traced_run(ticks).accounts == accounts_after(before.accounts, ticks.last()));
    }
}

/// Over a run in which no count falls, the growth shown by the rows of the trace adds up to the
/// total of the aggregate record, as long as that total is below the largest `u64`.
pub proof fn lemma_trace_adds_up_to_the_total(ticks: Seq<Seq<ProcessSnapshot>>, e: Event)
    requires
        run_never_falls(ticks, e),
        amount(after_traced_run(ticks).total(Counter::Events(e))) < u64::MAX,
    ensures
        traced_growth(ticks, e) == amount(after_traced_run(ticks).total(Counter::Events(e))),
{
    let c = Counter::Events(e);
    let accounts = after_traced_run(ticks).accounts;
    if counter_total(accounts, c) is None {
        assert forall|pid: i32| #[trigger]
            counter_amounts(accounts, c).contains_key(pid) implies counter_amounts(
            accounts,
            c,
        )[pid] == 0 by {
            assert(accounts.contains_key(pid));
        }
        lemma_zero_ledger(counter_amounts(accounts, c));
    }
    lemma_trace_adds_up_unsaturated(ticks, e);
}

} // verus!

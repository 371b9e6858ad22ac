//! What is kept of each process, also after it has gone.

use std::collections::HashMap;

use vstd::arithmetic::power2::pow2;
use vstd::prelude::*;
use vstd::std_specs::iter::IteratorSpec;

use super::ledger::{ledger_sum, lemma_pids_are_finite, lemma_walk_is_ledger, walk_sum};
use super::snapshot::{Counter, Event, ProcessSnapshot};
use super::tally::{any_exposed, amount, exposed_sum, saturated, tallied, Tally};
use crate::natural::Natural;
use crate::quantity::{
    nearest_net, net_in_grains, Quantity, GRAIN, INFINITY, MINUS_INFINITY, NOT_A_NUMBER,
};

verus! {

/// Per-process account: the largest value seen of each count, which stays when the process exits.
#[derive(Debug, Clone, Copy)]
pub struct ProcessAccum {
    pub io_read_bytes: Option<u64>,
    pub io_write_bytes: Option<u64>,
    pub cpu_time_seconds: Quantity,
    pub major_page_faults: Option<u64>,
    pub minor_page_faults: Option<u64>,
    pub voluntary_ctx_switches: Option<u64>,
    pub involuntary_ctx_switches: Option<u64>,
}

/// The larger of two numbers.
pub open spec fn larger(a: u64, b: u64) -> u64 {
    if a >= b {
        a
    } else {
        b
    }
}

/// The longer of two times: the one kept, unless the new one is a number that exceeds it.
pub open spec fn longer(kept: Quantity, reading: Quantity) -> Quantity {
    if reading.exceeds(kept) {
        reading
    } else {
        kept
    }
}

/// A kept value after a new reading: the larger of both, or the kept one where nothing was read.
pub open spec fn raised(kept: Option<u64>, reading: Option<u64>) -> Option<u64> {
    match (kept, reading) {
        (_, None) => kept,
        (None, Some(v)) => Some(v),
        (Some(k), Some(v)) => Some(larger(k, v)),
    }
}

/// The larger of `kept` and `reading`, of those that are there.
pub fn raise(kept: Option<u64>, reading: Option<u64>) -> (r: Option<u64>)
    ensures
        r == raised(kept, reading),
{
    match reading {
        Some(v) => match kept {
            Some(k) => if k >= v {
                Some(k)
            } else {
                Some(v)
            },
            None => Some(v),
        },
        None => kept,
    }
}

impl ProcessAccum {
    /// The account of a process of which nothing was seen.
    pub open spec fn blank() -> ProcessAccum {
        ProcessAccum {
            io_read_bytes: None,
            io_write_bytes: None,
            cpu_time_seconds: Quantity::zero(),
            major_page_faults: None,
            minor_page_faults: None,
            voluntary_ctx_switches: None,
            involuntary_ctx_switches: None,
        }
    }

    /// What the account holds of `c`.
    pub open spec fn counter(self, c: Counter) -> Option<u64> {
        match c {
            Counter::BytesRead => self.io_read_bytes,
            Counter::BytesWritten => self.io_write_bytes,
            Counter::Events(Event::MajorFaults) => self.major_page_faults,
            Counter::Events(Event::MinorFaults) => self.minor_page_faults,
            Counter::Events(Event::VoluntarySwitches) => self.voluntary_ctx_switches,
            Counter::Events(Event::InvoluntarySwitches) => self.involuntary_ctx_switches,
        }
    }

    /// The account after one more snapshot of the process.
    pub open spec fn with(self, snap: ProcessSnapshot) -> ProcessAccum {
        ProcessAccum {
            io_read_bytes: raised(self.io_read_bytes, snap.io_read_bytes),
            io_write_bytes: raised(self.io_write_bytes, snap.io_write_bytes),
            cpu_time_seconds: longer(self.cpu_time_seconds, snap.cpu_time_seconds),
            major_page_faults: raised(self.major_page_faults, snap.major_page_faults),
            minor_page_faults: raised(self.minor_page_faults, snap.minor_page_faults),
            voluntary_ctx_switches: raised(
                self.voluntary_ctx_switches,
                snap.voluntary_ctx_switches,
            ),
            involuntary_ctx_switches: raised(
                self.involuntary_ctx_switches,
                snap.involuntary_ctx_switches,
            ),
        }
    }

    /// Enters one more snapshot of the process.
    fn enter(&self, snap: &ProcessSnapshot) -> (r: ProcessAccum)
        ensures
            r == self.with(*snap),
    {
        ProcessAccum {
            io_read_bytes: raise(self.io_read_bytes, snap.io_read_bytes),
            io_write_bytes: raise(self.io_write_bytes, snap.io_write_bytes),
            cpu_time_seconds: if snap.cpu_time_seconds.is_above(&self.cpu_time_seconds) {
                snap.cpu_time_seconds
            } else {
                self.cpu_time_seconds
            },
            major_page_faults: raise(self.major_page_faults, snap.major_page_faults),
            minor_page_faults: raise(self.minor_page_faults, snap.minor_page_faults),
            voluntary_ctx_switches: raise(
                self.voluntary_ctx_switches,
                snap.voluntary_ctx_switches,
            ),
            involuntary_ctx_switches: raise(
                self.involuntary_ctx_switches,
                snap.involuntary_ctx_switches,
            ),
        }
    }
}

impl Default for ProcessAccum {
    fn default() -> (a: ProcessAccum)
        ensures
            a == ProcessAccum::blank(),
    {
        ProcessAccum {
            io_read_bytes: None,
            io_write_bytes: None,
            cpu_time_seconds: Quantity::default(),
            major_page_faults: None,
            minor_page_faults: None,
            voluntary_ctx_switches: None,
            involuntary_ctx_switches: None,
        }
    }
}

/// The account of `pid`, blank where it was never seen.
pub open spec fn account_of(accounts: Map<i32, ProcessAccum>, pid: i32) -> ProcessAccum {
    if accounts.contains_key(pid) {
        accounts[pid]
    } else {
        ProcessAccum::blank()
    }
}

/// The accounts after the snapshots of a tick, entered one by one.
pub open spec fn accounts_after(
    accounts: Map<i32, ProcessAccum>,
    snapshots: Seq<ProcessSnapshot>,
) -> Map<i32, ProcessAccum>
    decreases snapshots.len(),
{
    if snapshots.len() == 0 {
        accounts
    } else {
        let before = accounts_after(accounts, snapshots.drop_last());
        let snap = snapshots.last();
        before.insert(snap.pid, account_of(before, snap.pid).with(snap))
    }
}

/// What each account adds to the total of `c`.
pub open spec fn counter_amounts(accounts: Map<i32, ProcessAccum>, c: Counter) -> Map<i32, nat> {
    accounts.map_values(|a: ProcessAccum| amount(a.counter(c)))
}

/// The grains that a finite time adds.
pub open spec fn gain(time: Quantity) -> nat {
    if time.is_finite() && !time.minus() {
        time.over()
    } else {
        0
    }
}

/// The grains that a finite time with a minus sign takes off.
pub open spec fn loss(time: Quantity) -> nat {
    if time.is_finite() && time.minus() {
        time.over()
    } else {
        0
    }
}

/// What the CPU time of each account adds, in grains.
pub open spec fn cpu_gains(accounts: Map<i32, ProcessAccum>) -> Map<i32, nat> {
    accounts.map_values(|a: ProcessAccum| gain(a.cpu_time_seconds))
}

/// What the CPU time of each account takes off, in grains.
pub open spec fn cpu_losses(accounts: Map<i32, ProcessAccum>) -> Map<i32, nat> {
    accounts.map_values(|a: ProcessAccum| loss(a.cpu_time_seconds))
}

/// A time that is not finite.
pub enum Special {
    Infinite,
    MinusInfinite,
    NoNumber,
}

/// `time` is not finite, in the way of `s`.
pub open spec fn is_special(time: Quantity, s: Special) -> bool {
    match s {
        Special::Infinite => time.bits == INFINITY,
        Special::MinusInfinite => time.bits == MINUS_INFINITY,
        Special::NoNumber => time.is_nan(),
    }
}

/// Some account holds a time that is not finite, in the way of `s`.
pub open spec fn ever_special(accounts: Map<i32, ProcessAccum>, s: Special) -> bool {
    exists|pid: i32| #[trigger]
        accounts.contains_key(pid) && is_special(accounts[pid].cpu_time_seconds, s)
}

/// Some account holds a value of `c`.
pub open spec fn ever_exposed(accounts: Map<i32, ProcessAccum>, c: Counter) -> bool {
    exists|pid: i32| #[trigger] accounts.contains_key(pid) && accounts[pid].counter(c) is Some
}

/// The total of `c` over every process seen so far, or `None` where none ever exposed it.
pub open spec fn counter_total(accounts: Map<i32, ProcessAccum>, c: Counter) -> Option<u64> {
    if ever_exposed(accounts, c) {
        Some(saturated(ledger_sum(counter_amounts(accounts, c))))
    } else {
        None
    }
}

/// The CPU time of every process seen so far, in seconds: the amount nearest to the exact sum,
/// whatever the order in which the accounts are met.
pub open spec fn cpu_total(accounts: Map<i32, ProcessAccum>) -> Quantity {
    let up = ever_special(accounts, Special::Infinite);
    let down = ever_special(accounts, Special::MinusInfinite);
    if ever_special(accounts, Special::NoNumber) || (up && down) {
        Quantity { bits: NOT_A_NUMBER }
    } else if up {
        Quantity { bits: INFINITY }
    } else if down {
        Quantity { bits: MINUS_INFINITY }
    } else {
        nearest_net(
            ledger_sum(cpu_gains(accounts)),
            ledger_sum(cpu_losses(accounts)),
            pow2(GRAIN as nat),
        )
    }
}

/// Enters the snapshots of a tick into the accounts.
pub fn enter_all(accounts: &mut HashMap<i32, ProcessAccum>, snapshots: &[ProcessSnapshot])
    ensures
        final(accounts)@ == accounts_after(old(accounts)@, snapshots@),
{
    let n: usize = snapshots.len();
    let mut i: usize = 0;
    assert(snapshots@.take(0) =~= Seq::empty());
    while i < n
        invariant
            i <= n == snapshots@.len(),
            accounts@ == accounts_after(old(accounts)@, snapshots@.take(i as int)),
        decreases n - i,
    {
        let snap: ProcessSnapshot = snapshots[i];
        let kept: ProcessAccum = match accounts.get(&snap.pid) {
            Some(a) => *a,
            None => ProcessAccum::default(),
        };
        accounts.insert(snap.pid, kept.enter(&snap));
        proof {
            assert(snapshots@.take(i + 1).drop_last() =~= snapshots@.take(i as int));
        }
        i = i + 1;
    }
    assert(snapshots@.take(n as int) =~= snapshots@);
}

/// Cumulative totals across every process seen so far.
pub struct CumulativeTotals {
    pub io_in: Option<u64>,
    pub io_out: Option<u64>,
    pub cpu_time: Quantity,
    pub major_page_faults: Option<u64>,
    pub minor_page_faults: Option<u64>,
    pub voluntary_ctx_switches: Option<u64>,
    pub involuntary_ctx_switches: Option<u64>,
}

/// The readings of `c` that a walk over the accounts meets.
spec fn walked(accounts: Map<i32, ProcessAccum>, order: Seq<i32>, c: Counter) -> Seq<Option<u64>> {
    Seq::new(order.len(), |i: int| accounts[order[i]].counter(c))
}

/// One more account met is one more reading.
proof fn lemma_walked_step(
    accounts: Map<i32, ProcessAccum>,
    order: Seq<i32>,
    i: int,
    c: Counter,
)
    requires
        0 <= i < order.len(),
    ensures
        walked(accounts, order.take(i + 1), c) == walked(accounts, order.take(i), c).push(
            accounts[order[i]].counter(c),
        ),
{
    assert(walked(accounts, order.take(i + 1), c) =~= walked(accounts, order.take(i), c).push(
        accounts[order[i]].counter(c),
    ));
}

/// The readings met add up to the walk's sum.
proof fn lemma_walked_sum(accounts: Map<i32, ProcessAccum>, order: Seq<i32>, c: Counter)
    requires
        forall|i: int| 0 <= i < order.len() ==> accounts.contains_key(#[trigger] order[i]),
    ensures
        exposed_sum(walked(accounts, order, c)) == walk_sum(counter_amounts(accounts, c), order),
    decreases order.len(),
{
    if order.len() > 0 {
        let front = order.drop_last();
        assert forall|i: int| 0 <= i < front.len() implies accounts.contains_key(
            #[trigger] front[i],
        ) by {
            assert(front[i] == order[i]);
        }
        lemma_walked_sum(accounts, front, c);
        assert(walked(accounts, order, c).drop_last() =~= walked(accounts, front, c));
        assert(accounts.contains_key(order[order.len() - 1]));
    }
}

/// A tally of all readings, met in any order, is the total.
proof fn lemma_walked_total(accounts: Map<i32, ProcessAccum>, order: Seq<i32>, c: Counter)
    requires
        order.no_duplicates(),
        order.to_set() == accounts.dom(),
    ensures
        tallied(walked(accounts, order, c)) == counter_total(accounts, c),
{
    assert forall|i: int| 0 <= i < order.len() implies accounts.contains_key(
        #[trigger] order[i],
    ) by {
        assert(order.to_set().contains(order[i]));
    }
    lemma_walked_sum(accounts, order, c);
    assert(counter_amounts(accounts, c).dom() =~= accounts.dom());
    lemma_walk_is_ledger(counter_amounts(accounts, c), order);
    let readings = walked(accounts, order, c);
    if any_exposed(readings) {
        let i = choose|i: int| 0 <= i < readings.len() && (#[trigger] readings[i]) is Some;
        assert(accounts.contains_key(order[i]));
    }
    if ever_exposed(accounts, c) {
        let pid = choose|pid: i32| #[trigger]
            accounts.contains_key(pid) && accounts[pid].counter(c) is Some;
        assert(order.to_set().contains(pid));
        let i = choose|i: int| 0 <= i < order.len() && order[i] == pid;
        assert(readings[i] is Some);
    }
}

/// One of the first `n` accounts met holds a time that is not finite, in the way of `s`.
spec fn met_special(
    accounts: Map<i32, ProcessAccum>,
    order: Seq<i32>,
    n: int,
    s: Special,
) -> bool {
    exists|i: int| 0 <= i < n && is_special(accounts[#[trigger] order[i]].cpu_time_seconds, s)
}

proof fn lemma_met_step(accounts: Map<i32, ProcessAccum>, order: Seq<i32>, n: int, s: Special)
    requires
        0 <= n < order.len(),
    ensures
        met_special(accounts, order, n + 1, s) == (met_special(accounts, order, n, s) || is_special(
            accounts[order[n]].cpu_time_seconds,
            s,
        )),
{
    if met_special(accounts, order, n, s) {
        let i = choose|i: int|
            0 <= i < n && is_special(accounts[#[trigger] order[i]].cpu_time_seconds, s);
        assert(0 <= i < n + 1 && is_special(accounts[order[i]].cpu_time_seconds, s));
    }
}

/// Whatever is held by some account is met on the way through all of them.
proof fn lemma_met_all(accounts: Map<i32, ProcessAccum>, order: Seq<i32>, s: Special)
    requires
        order.to_set() == accounts.dom(),
        forall|i: int| 0 <= i < order.len() ==> accounts.contains_key(#[trigger] order[i]),
    ensures
        met_special(accounts, order, order.len() as int, s) == ever_special(accounts, s),
{
    if met_special(accounts, order, order.len() as int, s) {
        let i = choose|i: int|
            0 <= i < order.len() && is_special(
                accounts[#[trigger] order[i]].cpu_time_seconds,
                s,
            );
        assert(accounts.contains_key(order[i]));
    }
    if ever_special(accounts, s) {
        let pid = choose|pid: i32| #[trigger]
            accounts.contains_key(pid) && is_special(accounts[pid].cpu_time_seconds, s);
        assert(order.to_set().contains(pid));
        let i = choose|i: int| 0 <= i < order.len() && order[i] == pid;
        assert(is_special(accounts[order[i]].cpu_time_seconds, s));
    }
}

/// Sums the accounts of every process seen, those that have exited among them.
pub fn cumulative_totals(accounts: &HashMap<i32, ProcessAccum>) -> (t: CumulativeTotals)
    ensures
        t.io_in == counter_total(accounts@, Counter::BytesRead),
        t.io_out == counter_total(accounts@, Counter::BytesWritten),
        t.cpu_time == cpu_total(accounts@),
        t.major_page_faults == counter_total(accounts@, Counter::Events(Event::MajorFaults)),
        t.minor_page_faults == counter_total(accounts@, Counter::Events(Event::MinorFaults)),
        t.voluntary_ctx_switches == counter_total(
            accounts@,
            Counter::Events(Event::VoluntarySwitches),
        ),
        t.involuntary_ctx_switches == counter_total(
            accounts@,
            Counter::Events(Event::InvoluntarySwitches),
        ),
{
    let mut io_in: Tally = Tally::new();
    let mut io_out: Tally = Tally::new();
    let mut gains: Natural = Natural::from_u64(0);
    let mut losses: Natural = Natural::from_u64(0);
    let mut up: bool = false;
    let mut down: bool = false;
    let mut no_number: bool = false;
    let mut major: Tally = Tally::new();
    let mut minor: Tally = Tally::new();
    let mut voluntary: Tally = Tally::new();
    let mut involuntary: Tally = Tally::new();
    let keys = accounts.keys();
    let ghost order: Seq<i32> = keys.remaining().unref();
    proof {
        lemma_pids_are_finite(accounts@.dom());
        assert(walked(accounts@, order.take(0), Counter::BytesRead) =~= Seq::empty());
        assert(walked(accounts@, order.take(0), Counter::BytesWritten) =~= Seq::empty());
        assert(walked(accounts@, order.take(0), Counter::Events(Event::MajorFaults))
            =~= Seq::empty());
        assert(walked(accounts@, order.take(0), Counter::Events(Event::MinorFaults))
            =~= Seq::empty());
        assert(walked(accounts@, order.take(0), Counter::Events(Event::VoluntarySwitches))
            =~= Seq::empty());
        assert(walked(accounts@, order.take(0), Counter::Events(Event::InvoluntarySwitches))
            =~= Seq::empty());
    }
    for pid in it: keys
        invariant
            order == it.seq().unref(),
            forall|i: int| 0 <= i < order.len() ==> accounts@.contains_key(#[trigger] order[i]),
            io_in.covers(walked(accounts@, order.take(it.index()), Counter::BytesRead)),
            io_out.covers(walked(accounts@, order.take(it.index()), Counter::BytesWritten)),
            gains@ == walk_sum(cpu_gains(accounts@), order.take(it.index())),
            losses@ == walk_sum(cpu_losses(accounts@), order.take(it.index())),
            up == met_special(accounts@, order, it.index(), Special::Infinite),
            down == met_special(accounts@, order, it.index(), Special::MinusInfinite),
            no_number == met_special(accounts@, order, it.index(), Special::NoNumber),
            major.covers(
                walked(accounts@, order.take(it.index()), Counter::Events(Event::MajorFaults)),
            ),
            minor.covers(
                walked(accounts@, order.take(it.index()), Counter::Events(Event::MinorFaults)),
            ),
            voluntary.covers(
                walked(
                    accounts@,
                    order.take(it.index()),
                    Counter::Events(Event::VoluntarySwitches),
                ),
            ),
            involuntary.covers(
                walked(
                    accounts@,
                    order.take(it.index()),
                    Counter::Events(Event::InvoluntarySwitches),
                ),
            ),
    {
        let ghost i: int = it.index();
        proof {
            assert(*pid == order[i]);
            assert(accounts@.contains_key(order[i]));
            lemma_walked_step(accounts@, order, i, Counter::BytesRead);
            lemma_walked_step(accounts@, order, i, Counter::BytesWritten);
            lemma_walked_step(accounts@, order, i, Counter::Events(Event::MajorFaults));
            lemma_walked_step(accounts@, order, i, Counter::Events(Event::MinorFaults));
            lemma_walked_step(accounts@, order, i, Counter::Events(Event::VoluntarySwitches));
            lemma_walked_step(accounts@, order, i, Counter::Events(Event::InvoluntarySwitches));
            assert(order.take(i + 1).drop_last() =~= order.take(i));
            lemma_met_step(accounts@, order, i, Special::Infinite);
            lemma_met_step(accounts@, order, i, Special::MinusInfinite);
            lemma_met_step(accounts@, order, i, Special::NoNumber);
        }
        if let Some(accum) = accounts.get(pid) {
            io_in.add(accum.io_read_bytes);
            io_out.add(accum.io_write_bytes);
            let time: Quantity = accum.cpu_time_seconds;
            if time.no_number() {
                no_number = true;
            } else if time.infinite() {
                if time.is_negative() {
                    down = true;
                } else {
                    up = true;
                }
            } else if time.is_negative() {
                losses.plus(&time.grains());
            } else {
                gains.plus(&time.grains());
            }
            major.add(accum.major_page_faults);
            minor.add(accum.minor_page_faults);
            voluntary.add(accum.voluntary_ctx_switches);
            involuntary.add(accum.involuntary_ctx_switches);
        }
    }
    proof {
        assert(order.take(order.len() as int) =~= order);
        assert(cpu_gains(accounts@).dom() =~= accounts@.dom());
        assert(cpu_losses(accounts@).dom() =~= accounts@.dom());
        lemma_walk_is_ledger(cpu_gains(accounts@), order);
        lemma_walk_is_ledger(cpu_losses(accounts@), order);
        lemma_met_all(accounts@, order, Special::Infinite);
        lemma_met_all(accounts@, order, Special::MinusInfinite);
        lemma_met_all(accounts@, order, Special::NoNumber);
        lemma_walked_total(accounts@, order, Counter::BytesRead);
        lemma_walked_total(accounts@, order, Counter::BytesWritten);
        lemma_walked_total(accounts@, order, Counter::Events(Event::MajorFaults));
        lemma_walked_total(accounts@, order, Counter::Events(Event::MinorFaults));
        lemma_walked_total(accounts@, order, Counter::Events(Event::VoluntarySwitches));
        lemma_walked_total(accounts@, order, Counter::Events(Event::InvoluntarySwitches));
    }
    CumulativeTotals {
        io_in: io_in.get(),
        io_out: io_out.get(),
        cpu_time: if no_number || (up && down) {
            Quantity::from_bits(NOT_A_NUMBER)
        } else if up {
            Quantity::from_bits(INFINITY)
        } else if down {
            Quantity::from_bits(MINUS_INFINITY)
        } else {
            net_in_grains(&gains, &losses)
        },
        major_page_faults: major.get(),
        minor_page_faults: minor.get(),
        voluntary_ctx_switches: voluntary.get(),
        involuntary_ctx_switches: involuntary.get(),
    }
}

} // verus!

//! How much each event count grew since the tick before.

use std::collections::HashMap;

use vstd::prelude::*;

use super::snapshot::{Event, ProcessSnapshot};
use super::tally::{tallied, Tally};

verus! {

/// The event counts of one process at the end of the tick before.
#[derive(Debug, Clone, Copy)]
pub struct PrevCumulative {
    pub major_page_faults: u64,
    pub minor_page_faults: u64,
    pub voluntary_ctx_switches: u64,
    pub involuntary_ctx_switches: u64,
}

/// Growth of the event counts over one tick, summed over its processes. `None` where no process
/// exposed the count this tick.
#[derive(Debug, Clone, Copy)]
pub struct PerTickDeltas {
    pub major_page_faults: Option<u64>,
    pub minor_page_faults: Option<u64>,
    pub voluntary_ctx_switches: Option<u64>,
    pub involuntary_ctx_switches: Option<u64>,
}

/// The new reading where there is one, else the old value.
pub open spec fn carried(reading: Option<u64>, before: u64) -> u64 {
    match reading {
        Some(v) => v,
        None => before,
    }
}

/// How far a count has grown past `before`; nothing where it fell, as when a process id is used
/// again.
pub open spec fn growth(reading: Option<u64>, before: u64) -> Option<u64> {
    match reading {
        Some(v) => Some(
            if v >= before {
                (v - before) as u64
            } else {
                0
            },
        ),
        None => None,
    }
}

impl PrevCumulative {
    /// The counts of a process never seen before.
    pub open spec fn zero() -> PrevCumulative {
        PrevCumulative {
            major_page_faults: 0,
            minor_page_faults: 0,
            voluntary_ctx_switches: 0,
            involuntary_ctx_switches: 0,
        }
    }

    /// The count of `e`.
    pub open spec fn events(self, e: Event) -> u64 {
        match e {
            Event::MajorFaults => self.major_page_faults,
            Event::MinorFaults => self.minor_page_faults,
            Event::VoluntarySwitches => self.voluntary_ctx_switches,
            Event::InvoluntarySwitches => self.involuntary_ctx_switches,
        }
    }

    /// The counts after a snapshot; one that it does not expose stays.
    pub open spec fn advanced(self, snap: ProcessSnapshot) -> PrevCumulative {
        PrevCumulative {
            major_page_faults: carried(snap.major_page_faults, self.major_page_faults),
            minor_page_faults: carried(snap.minor_page_faults, self.minor_page_faults),
            voluntary_ctx_switches: carried(
                snap.voluntary_ctx_switches,
                self.voluntary_ctx_switches,
            ),
            involuntary_ctx_switches: carried(
                snap.involuntary_ctx_switches,
                self.involuntary_ctx_switches,
            ),
        }
    }
}

impl Default for PrevCumulative {
    fn default() -> (p: PrevCumulative)
        ensures
            p == PrevCumulative::zero(),
    {
        PrevCumulative {
            major_page_faults: 0,
            minor_page_faults: 0,
            voluntary_ctx_switches: 0,
            involuntary_ctx_switches: 0,
        }
    }
}

/// The counts of `pid` before this tick, zero where it was never seen.
pub open spec fn baseline_of(baselines: Map<i32, PrevCumulative>, pid: i32) -> PrevCumulative {
    if baselines.contains_key(pid) {
        baselines[pid]
    } else {
        PrevCumulative::zero()
    }
}

/// The counts to compare with next time, after the snapshots of a tick.
pub open spec fn baselines_after(
    baselines: Map<i32, PrevCumulative>,
    snapshots: Seq<ProcessSnapshot>,
) -> Map<i32, PrevCumulative>
    decreases snapshots.len(),
{
    if snapshots.len() == 0 {
        baselines
    } else {
        let before = baselines_after(baselines, snapshots.drop_last());
        let snap = snapshots.last();
        before.insert(snap.pid, baseline_of(before, snap.pid).advanced(snap))
    }
}

/// How far `e` has grown for each snapshot of a tick.
pub open spec fn growth_column(
    baselines: Map<i32, PrevCumulative>,
    snapshots: Seq<ProcessSnapshot>,
    e: Event,
) -> Seq<Option<u64>> {
    Seq::new(
        snapshots.len(),
        |i: int|
            growth(
                snapshots[i].events(e),
                baseline_of(
                    baselines_after(baselines, snapshots.take(i)),
                    snapshots[i].pid,
                ).events(e),
            ),
    )
}

/// The growth of `e` over a tick.
pub open spec fn tick_delta(
    baselines: Map<i32, PrevCumulative>,
    snapshots: Seq<ProcessSnapshot>,
    e: Event,
) -> Option<u64> {
    tallied(growth_column(baselines, snapshots, e))
}

/// The column of one more snapshot is one entry longer.
proof fn lemma_growth_column_step(
    baselines: Map<i32, PrevCumulative>,
    snapshots: Seq<ProcessSnapshot>,
    i: int,
    e: Event,
)
    requires
        0 <= i < snapshots.len(),
    ensures
        growth_column(baselines, snapshots.take(i + 1), e) == growth_column(
            baselines,
            snapshots.take(i),
            e,
        ).push(
            growth(
                snapshots[i].events(e),
                baseline_of(
                    baselines_after(baselines, snapshots.take(i)),
                    snapshots[i].pid,
                ).events(e),
            ),
        ),
{
    assert forall|j: int| 0 <= j <= i implies snapshots.take(i + 1).take(j) == #[trigger] snapshots.take(
        j,
    ) by {
        assert(snapshots.take(i + 1).take(j) =~= snapshots.take(j));
    }
    assert forall|j: int| 0 <= j < i implies snapshots.take(i).take(j) == #[trigger] snapshots.take(
        j,
    ) by {
        assert(snapshots.take(i).take(j) =~= snapshots.take(j));
    }
    let longer = growth_column(baselines, snapshots.take(i + 1), e);
    let shorter = growth_column(baselines, snapshots.take(i), e);
    assert forall|j: int| 0 <= j < i implies longer[j] == shorter[j] by {
        let _ = snapshots.take(j);
    }
    assert(longer =~= shorter.push(longer[i]));
}

/// The growth of one count.
fn grow(reading: Option<u64>, before: u64) -> (r: Option<u64>)
    ensures
        r == growth(reading, before),
{
    match reading {
        Some(current) => Some(current.saturating_sub(before)),
        None => None,
    }
}

/// For each snapshot takes the growth since the tick before, summed per event, and moves the
/// baselines up to the new counts.
pub fn compute_and_advance_per_tick_deltas(
    baselines: &mut HashMap<i32, PrevCumulative>,
    snapshots: &[ProcessSnapshot],
) -> (d: PerTickDeltas)
    ensures
        final(baselines)@ == baselines_after(old(baselines)@, snapshots@),
        d.major_page_faults == tick_delta(old(baselines)@, snapshots@, Event::MajorFaults),
        d.minor_page_faults == tick_delta(old(baselines)@, snapshots@, Event::MinorFaults),
        d.voluntary_ctx_switches == tick_delta(
            old(baselines)@,
            snapshots@,
            Event::VoluntarySwitches,
        ),
        d.involuntary_ctx_switches == tick_delta(
            old(baselines)@,
            snapshots@,
            Event::InvoluntarySwitches,
        ),
{
    let ghost start: Map<i32, PrevCumulative> = baselines@;
    let mut major: Tally = Tally::new();
    let mut minor: Tally = Tally::new();
    let mut voluntary: Tally = Tally::new();
    let mut involuntary: Tally = Tally::new();
    let n: usize = snapshots.len();
    let mut i: usize = 0;
    proof {
        assert(snapshots@.take(0) =~= Seq::empty());
        assert(growth_column(start, snapshots@.take(0), Event::MajorFaults) =~= Seq::empty());
        assert(growth_column(start, snapshots@.take(0), Event::MinorFaults) =~= Seq::empty());
        assert(growth_column(start, snapshots@.take(0), Event::VoluntarySwitches)
            =~= Seq::empty());
        assert(growth_column(start, snapshots@.take(0), Event::InvoluntarySwitches)
            =~= Seq::empty());
    }
    while i < n
        invariant
            i <= n == snapshots@.len(),
            baselines@ == baselines_after(start, snapshots@.take(i as int)),
            major.covers(growth_column(start, snapshots@.take(i as int), Event::MajorFaults)),
            minor.covers(growth_column(start, snapshots@.take(i as int), Event::MinorFaults)),
            voluntary.covers(
                growth_column(start, snapshots@.take(i as int), Event::VoluntarySwitches),
            ),
            involuntary.covers(
                growth_column(start, snapshots@.take(i as int), Event::InvoluntarySwitches),
            ),
        decreases n - i,
    {
        let snap: ProcessSnapshot = snapshots[i];
        let prev: PrevCumulative = match baselines.get(&snap.pid) {
            Some(p) => *p,
            None => PrevCumulative::default(),
        };
        major.add(grow(snap.major_page_faults, prev.major_page_faults));
        minor.add(grow(snap.minor_page_faults, prev.minor_page_faults));
        voluntary.add(grow(snap.voluntary_ctx_switches, prev.voluntary_ctx_switches));
        involuntary.add(grow(snap.involuntary_ctx_switches, prev.involuntary_ctx_switches));
        baselines.insert(
            snap.pid,
            PrevCumulative {
                major_page_faults: snap.major_page_faults.unwrap_or(prev.major_page_faults),
                minor_page_faults: snap.minor_page_faults.unwrap_or(prev.minor_page_faults),
                voluntary_ctx_switches: snap.voluntary_ctx_switches.unwrap_or(
                    prev.voluntary_ctx_switches,
                ),
                involuntary_ctx_switches: snap.involuntary_ctx_switches.unwrap_or(
                    prev.involuntary_ctx_switches,
                ),
            },
        );
        proof {
            assert(snapshots@.take(i + 1).drop_last() =~= snapshots@.take(i as int));
            lemma_growth_column_step(start, snapshots@, i as int, Event::MajorFaults);
            lemma_growth_column_step(start, snapshots@, i as int, Event::MinorFaults);
            lemma_growth_column_step(start, snapshots@, i as int, Event::VoluntarySwitches);
            lemma_growth_column_step(start, snapshots@, i as int, Event::InvoluntarySwitches);
        }
        i = i + 1;
    }
    assert(snapshots@.take(n as int) =~= snapshots@);
    PerTickDeltas {
        major_page_faults: major.get(),
        minor_page_faults: minor.get(),
        voluntary_ctx_switches: voluntary.get(),
        involuntary_ctx_switches: involuntary.get(),
    }
}

} // verus!

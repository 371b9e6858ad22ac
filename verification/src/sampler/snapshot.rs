//! What one process showed at one moment.

use vstd::prelude::*;

use crate::quantity::Quantity;

verus! {

/// One snapshot of resource use for one process at one moment in time.
///
/// Memory and I/O fields are raw bytes. I/O, page-fault and context-switch fields count from the
/// birth of the process. A field is `None` where the platform did not expose it this time.
#[derive(Debug, Clone, Copy)]
pub struct ProcessSnapshot {
    pub pid: i32,
    pub rss_bytes: u64,
    pub vms_bytes: u64,
    pub uss_bytes: Option<u64>,
    pub pss_bytes: Option<u64>,
    pub io_read_bytes: Option<u64>,
    pub io_write_bytes: Option<u64>,
    /// User and system CPU time since the process was born, in seconds.
    pub cpu_time_seconds: Quantity,
    /// Page faults that needed I/O.
    pub major_page_faults: Option<u64>,
    /// Page faults that did not.
    pub minor_page_faults: Option<u64>,
    pub voluntary_ctx_switches: Option<u64>,
    pub involuntary_ctx_switches: Option<u64>,
    /// Live threads at sample time.
    pub thread_count: Option<u64>,
    /// Bytes swapped out.
    pub swap_bytes: Option<u64>,
}

/// A reading that is summed over the live processes of one tick.
pub enum Gauge {
    Resident,
    Virtual,
    Unique,
    Proportional,
    Threads,
}

/// A count of events since a process was born, of which the trace shows the growth per tick.
pub enum Event {
    MajorFaults,
    MinorFaults,
    VoluntarySwitches,
    InvoluntarySwitches,
}

/// A count that only grows while a process lives.
pub enum Counter {
    BytesRead,
    BytesWritten,
    Events(Event),
}

impl ProcessSnapshot {
    /// What the process shows of `g`.
    pub open spec fn gauge(self, g: Gauge) -> Option<u64> {
        match g {
            Gauge::Resident => Some(self.rss_bytes),
            Gauge::Virtual => Some(self.vms_bytes),
            Gauge::Unique => self.uss_bytes,
            Gauge::Proportional => self.pss_bytes,
            Gauge::Threads => self.thread_count,
        }
    }

    /// How many of `e` the process has had.
    pub open spec fn events(self, e: Event) -> Option<u64> {
        match e {
            Event::MajorFaults => self.major_page_faults,
            Event::MinorFaults => self.minor_page_faults,
            Event::VoluntarySwitches => self.voluntary_ctx_switches,
            Event::InvoluntarySwitches => self.involuntary_ctx_switches,
        }
    }

    /// What the process shows of `c`.
    pub open spec fn counter(self, c: Counter) -> Option<u64> {
        match c {
            Counter::BytesRead => self.io_read_bytes,
            Counter::BytesWritten => self.io_write_bytes,
            Counter::Events(e) => self.events(e),
        }
    }
}

impl Default for ProcessSnapshot {
    /// A process with id zero that shows nothing.
    fn default() -> (s: ProcessSnapshot)
        ensures
            s == (ProcessSnapshot {
                pid: 0,
                rss_bytes: 0,
                vms_bytes: 0,
                uss_bytes: None,
                pss_bytes: None,
                io_read_bytes: None,
                io_write_bytes: None,
                cpu_time_seconds: Quantity::zero(),
                major_page_faults: None,
                minor_page_faults: None,
                voluntary_ctx_switches: None,
                involuntary_ctx_switches: None,
                thread_count: None,
                swap_bytes: None,
            }),
    {
        ProcessSnapshot {
            pid: 0,
            rss_bytes: 0,
            vms_bytes: 0,
            uss_bytes: None,
            pss_bytes: None,
            io_read_bytes: None,
            io_write_bytes: None,
            cpu_time_seconds: Quantity::default(),
            major_page_faults: None,
            minor_page_faults: None,
            voluntary_ctx_switches: None,
            involuntary_ctx_switches: None,
            thread_count: None,
            swap_bytes: None,
        }
    }
}

/// The readings of `g` over a tick, one for each snapshot.
pub open spec fn gauge_column(snapshots: Seq<ProcessSnapshot>, g: Gauge) -> Seq<Option<u64>> {
    Seq::new(snapshots.len(), |i: int| snapshots[i].gauge(g))
}

/// The column of one more snapshot is one reading longer.
pub proof fn lemma_gauge_column_step(snapshots: Seq<ProcessSnapshot>, i: int, g: Gauge)
    requires
        0 <= i < snapshots.len(),
    ensures
        gauge_column(snapshots.take(i + 1), g) == gauge_column(snapshots.take(i), g).push(
            snapshots[i].gauge(g),
        ),
{
    assert(gauge_column(snapshots.take(i + 1), g) =~= gauge_column(snapshots.take(i), g).push(
        snapshots[i].gauge(g),
    ));
}

} // verus!

//! What macOS shows of a process, as a snapshot.
//!
//! macOS computes no proportional set size. The nearest to a unique set size is the physical
//! footprint, the memory that would be reclaimed if the process exited; it stands for both.

use vstd::prelude::*;

use crate::quantity::{lemma_results_are_durations, Quantity, NANOS_PER_SECOND};
use crate::sampler::snapshot::ProcessSnapshot;

verus! {

/// How many nanoseconds a unit of Mach absolute time lasts, as a fraction.
#[derive(Debug, Clone, Copy)]
pub struct Timebase {
    numer: u32,
    denom: u32,
}

impl Timebase {
    #[verifier::type_invariant]
    spec fn divides(self) -> bool {
        self.denom > 0
    }

    /// The numerator.
    pub closed spec fn over(self) -> nat {
        self.numer as nat
    }

    /// The denominator.
    pub closed spec fn under(self) -> nat {
        self.denom as nat
    }

    /// The fraction as the kernel gives it. A denominator of zero, which no kernel gives, is
    /// taken as one.
    pub fn new(numer: u32, denom: u32) -> (t: Timebase)
        ensures
            t.over() == numer,
            t.under() == if denom == 0 {
                1
            } else {
                denom as nat
            },
    {
        Timebase {
            numer,
            denom: if denom == 0 {
                1
            } else {
                denom
            },
        }
    }

    /// `time` Mach units in seconds.
    pub open spec fn in_seconds(self, time: u64) -> Quantity {
        if self.over() == 0 {
            Quantity::zero()
        } else {
            Quantity::of(time as nat).times(self.over()).divided(self.under()).divided(
                NANOS_PER_SECOND as nat,
            )
        }
    }

    /// `mach_time` Mach units in seconds.
    pub fn mach_time_to_seconds(&self, mach_time: u64) -> (r: Quantity)
        ensures
            r == self.in_seconds(mach_time),
    {
        proof {
            use_type_invariant(self);
            lemma_results_are_durations();
        }
        if self.numer == 0 {
            return Quantity::default();
        }
        Quantity::of_u64(mach_time).multiplied_by(self.numer).divided_by(self.denom).divided_by(
            NANOS_PER_SECOND,
        )
    }
}

/// What task information says of a process.
#[derive(Debug, Clone, Copy)]
pub struct TaskReading {
    pub resident_size: u64,
    pub virtual_size: u64,
    /// CPU time in user mode, in Mach units.
    pub total_user: u64,
    /// CPU time in kernel mode, in Mach units.
    pub total_system: u64,
}

/// What resource usage says of a process.
#[derive(Debug, Clone, Copy)]
pub struct UsageReading {
    pub phys_footprint: u64,
    pub diskio_bytesread: u64,
    pub diskio_byteswritten: u64,
}

/// What could be read of one process.
#[derive(Debug, Clone, Copy)]
pub struct MacosReading {
    pub pid: i32,
    pub task: Option<TaskReading>,
    pub usage: Option<UsageReading>,
}

/// Process-tree sampler for macOS.
#[derive(Debug, Clone, Copy)]
pub struct MacosSampler;

/// The snapshot of a process: `None` where its task information could not be read, as when it has
/// exited.
pub open spec fn shown(timebase: Timebase, reading: MacosReading) -> Option<ProcessSnapshot> {
    match reading.task {
        Some(task) => Some(
            ProcessSnapshot {
                pid: reading.pid,
                rss_bytes: task.resident_size,
                vms_bytes: task.virtual_size,
                uss_bytes: match reading.usage {
                    Some(usage) => Some(usage.phys_footprint),
                    None => None,
                },
                pss_bytes: match reading.usage {
                    Some(usage) => Some(usage.phys_footprint),
                    None => None,
                },
                io_read_bytes: match reading.usage {
                    Some(usage) => Some(usage.diskio_bytesread),
                    None => None,
                },
                io_write_bytes: match reading.usage {
                    Some(usage) => Some(usage.diskio_byteswritten),
                    None => None,
                },
                cpu_time_seconds: timebase.in_seconds(task.total_user).sum(
                    timebase.in_seconds(task.total_system),
                ),
                major_page_faults: None,
                minor_page_faults: None,
                voluntary_ctx_switches: None,
                involuntary_ctx_switches: None,
                thread_count: None,
                swap_bytes: None,
            },
        ),
        None => None,
    }
}

/// The snapshots of a tree: those of its processes that could be read, in their order.
pub open spec fn shown_tree(timebase: Timebase, readings: Seq<MacosReading>) -> Seq<
    ProcessSnapshot,
>
    decreases readings.len(),
{
    if readings.len() == 0 {
        Seq::empty()
    } else {
        let before = shown_tree(timebase, readings.drop_last());
        match shown(timebase, readings.last()) {
            Some(snap) => before.push(snap),
            None => before,
        }
    }
}

impl MacosSampler {
    /// The sampler, which keeps nothing from one call to the next.
    pub fn new() -> (s: MacosSampler)
        ensures
            s == MacosSampler,
    {
        MacosSampler
    }

    /// Makes the snapshot of one process.
    pub fn sample_process(&self, timebase: &Timebase, reading: &MacosReading) -> (r: Option<
        ProcessSnapshot,
    >)
        ensures
            r == shown(*timebase, *reading),
    {
        let task: TaskReading = match reading.task {
            Some(task) => task,
            None => return None,
        };
        let mut snap: ProcessSnapshot = ProcessSnapshot::default();
        snap.pid = reading.pid;
        snap.rss_bytes = task.resident_size;
        snap.vms_bytes = task.virtual_size;
        proof {
            use_type_invariant(timebase);
            lemma_results_are_durations();
        }
        let user: Quantity = timebase.mach_time_to_seconds(task.total_user);
        let system: Quantity = timebase.mach_time_to_seconds(task.total_system);
        snap.cpu_time_seconds = user.add_to(&system);
        if let Some(usage) = reading.usage {
            snap.uss_bytes = Some(usage.phys_footprint);
            snap.pss_bytes = Some(usage.phys_footprint);
            snap.io_read_bytes = Some(usage.diskio_bytesread);
            snap.io_write_bytes = Some(usage.diskio_byteswritten);
        }
        Some(snap)
    }

    /// Makes the snapshots of a whole tree. A process that could not be read is left out.
    pub fn sample_tree(&self, timebase: &Timebase, readings: &Vec<MacosReading>) -> (r: Vec<
        ProcessSnapshot,
    >)
        ensures
            r@ == shown_tree(*timebase, readings@),
    {
        let mut out: Vec<ProcessSnapshot> = Vec::new();
        let n: usize = readings.len();
        let mut i: usize = 0;
        while i < n
            invariant
                i <= n == readings@.len(),
                out@ == shown_tree(*timebase, readings@.take(i as int)),
            decreases n - i,
        {
            if let Some(snap) = self.sample_process(timebase, &readings[i]) {
                out.push(snap);
            }
            proof {
                assert(readings@.take(i + 1).drop_last() =~= readings@.take(i as int));
            }
            i = i + 1;
        }
        assert(readings@.take(n as int) =~= readings@);
        out
    }
}

impl Default for MacosSampler {
    fn default() -> (s: MacosSampler)
        ensures
            s == MacosSampler,
    {
        MacosSampler::new()
    }
}

/// On macOS the proportional size mirrors the unique size.
pub proof fn lemma_proportional_mirrors_unique(timebase: Timebase, reading: MacosReading)
    ensures
        shown(timebase, reading) matches Some(snap) ==> snap.pss_bytes == snap.uss_bytes,
{
}

} // verus!

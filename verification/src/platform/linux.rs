//! What Linux shows of a process under `/proc`, as a snapshot.

use vstd::prelude::*;

use super::loadavg::{amount_of, first_word, parse_loadavg_1m};
use crate::quantity::{lemma_nearest_is_duration, Quantity};
use crate::sampler::snapshot::ProcessSnapshot;
use crate::sampler::state::may_be_mebibytes;
use crate::sampler::tally::saturated;
use crate::text::same_text;

verus! {

/// Bytes in the unit that the kernel calls `kB`.
pub const BYTES_PER_KB: u64 = 1024;

/// What `/proc/<pid>/stat` says of a process.
#[derive(Debug, Clone, Copy)]
pub struct StatReading {
    /// CPU time in user mode, in clock ticks.
    pub utime: u64,
    /// CPU time in kernel mode, in clock ticks.
    pub stime: u64,
    /// Minor page faults of the process itself, not of its children.
    pub minflt: u64,
    /// Major page faults of the process itself, not of its children.
    pub majflt: u64,
}

/// What `/proc/<pid>/status` says of a process, sizes in `kB`.
#[derive(Debug, Clone, Copy)]
pub struct StatusReading {
    pub vmrss: Option<u64>,
    pub vmsize: Option<u64>,
    pub vmswap: Option<u64>,
    pub voluntary_ctxt_switches: Option<u64>,
    pub nonvoluntary_ctxt_switches: Option<u64>,
    /// Live threads.
    pub threads: u64,
}

/// What `/proc/<pid>/io` says of a process.
#[derive(Debug, Clone, Copy)]
pub struct IoReading {
    pub read_bytes: u64,
    pub write_bytes: u64,
}

/// One named amount of a memory map.
#[derive(Debug)]
pub struct MapEntry {
    pub name: String,
    pub value: u64,
}

/// One memory map.
#[derive(Debug)]
pub struct MemoryMap {
    pub entries: Vec<MapEntry>,
}

/// What could be read of one process.
#[derive(Debug)]
pub struct LinuxReading {
    pub pid: i32,
    pub stat: Option<StatReading>,
    pub status: Option<StatusReading>,
    /// The maps of `/proc/<pid>/smaps_rollup`.
    pub rollup: Option<Vec<MemoryMap>>,
    pub io: Option<IoReading>,
}

/// `kb` in bytes, at most the largest `u64`.
pub open spec fn kb_in_bytes(kb: u64) -> u64 {
    saturated((kb * BYTES_PER_KB) as nat)
}

/// `kb` in bytes; nothing where it is not shown.
pub open spec fn shown_kb(kb: Option<u64>) -> u64 {
    match kb {
        Some(v) => kb_in_bytes(v),
        None => 0,
    }
}

/// The amount under `name`, the first where there are several.
pub open spec fn entry_under(entries: Seq<MapEntry>, name: Seq<char>) -> Option<u64>
    decreases entries.len(),
{
    if entries.len() == 0 {
        None
    } else if entries.first().name@ == name {
        Some(entries.first().value)
    } else {
        entry_under(entries.drop_first(), name)
    }
}

/// The amount under `name`, or nothing.
pub open spec fn amount_under(entries: Seq<MapEntry>, name: Seq<char>) -> u64 {
    match entry_under(entries, name) {
        Some(v) => v,
        None => 0,
    }
}

/// Unique size: what the first map holds privately, clean and dirty. `None` where no map is
/// there to read.
pub open spec fn unique_size(rollup: Option<Vec<MemoryMap>>) -> Option<u64> {
    match rollup {
        Some(maps) => if maps@.len() > 0 {
            let entries = maps@[0].entries@;
            Some(
                saturated(
                    (amount_under(entries, "Private_Clean"@) + amount_under(
                        entries,
                        "Private_Dirty"@,
                    )) as nat,
                ),
            )
        } else {
            None
        },
        None => None,
    }
}

/// Proportional size: what the first map shows of it.
pub open spec fn proportional_size(rollup: Option<Vec<MemoryMap>>) -> Option<u64> {
    match rollup {
        Some(maps) => if maps@.len() > 0 {
            entry_under(maps@[0].entries@, "Pss"@)
        } else {
            None
        },
        None => None,
    }
}

/// CPU time in seconds: `utime` and `stime` clock ticks, of which `rate` make a second. A rate of
/// zero, which no kernel gives, makes it infinite or no number.
pub open spec fn ticks_in_seconds(stat: StatReading, rate: u64) -> Quantity {
    Quantity::of(saturated((stat.utime + stat.stime) as nat) as nat).quotient(
        Quantity::of(rate as nat),
    )
}

/// Process-tree sampler for Linux.
#[derive(Debug, Clone, Copy)]
pub struct LinuxSampler {
    ticks_per_second: u64,
}

impl LinuxSampler {
    /// Clock ticks in one second.
    pub closed spec fn rate(self) -> u64 {
        self.ticks_per_second
    }

    /// The snapshot of a process: `None` where its `stat` or its `status` could not be read, as
    /// when it has exited.
    pub open spec fn shown(self, reading: LinuxReading) -> Option<ProcessSnapshot> {
        match (reading.stat, reading.status) {
            (Some(stat), Some(status)) => Some(
                ProcessSnapshot {
                    pid: reading.pid,
                    rss_bytes: shown_kb(status.vmrss),
                    vms_bytes: shown_kb(status.vmsize),
                    uss_bytes: unique_size(reading.rollup),
                    pss_bytes: proportional_size(reading.rollup),
                    io_read_bytes: match reading.io {
                        Some(io) => Some(io.read_bytes),
                        None => None,
                    },
                    io_write_bytes: match reading.io {
                        Some(io) => Some(io.write_bytes),
                        None => None,
                    },
                    cpu_time_seconds: ticks_in_seconds(stat, self.rate()),
                    major_page_faults: Some(stat.majflt),
                    minor_page_faults: Some(stat.minflt),
                    voluntary_ctx_switches: status.voluntary_ctxt_switches,
                    involuntary_ctx_switches: status.nonvoluntary_ctxt_switches,
                    thread_count: Some(status.threads),
                    swap_bytes: match status.vmswap {
                        Some(kb) => Some(kb_in_bytes(kb)),
                        None => None,
                    },
                },
            ),
            _ => None,
        }
    }

    /// The snapshots of a tree: those of its processes that could be read, in their order.
    pub open spec fn shown_tree(self, readings: Seq<LinuxReading>) -> Seq<ProcessSnapshot>
        decreases readings.len(),
    {
        if readings.len() == 0 {
            Seq::empty()
        } else {
            let before = self.shown_tree(readings.drop_last());
            match self.shown(readings.last()) {
                Some(snap) => before.push(snap),
                None => before,
            }
        }
    }

    /// A sampler for a kernel with `ticks_per_second` clock ticks in a second.
    pub fn new(ticks_per_second: u64) -> (s: LinuxSampler)
        ensures
            s.rate() == ticks_per_second,
    {
        LinuxSampler { ticks_per_second }
    }

    /// Makes the snapshot of one process.
    pub fn sample_process(&self, reading: &LinuxReading) -> (r: Option<ProcessSnapshot>)
        ensures
            r == self.shown(*reading),
    {
        let stat: StatReading = match reading.stat {
            Some(stat) => stat,
            None => return None,
        };
        let status: StatusReading = match reading.status {
            Some(status) => status,
            None => return None,
        };
        let (uss_bytes, pss_bytes): (Option<u64>, Option<u64>) = read_smaps_rollup(
            &reading.rollup,
        );
        let (io_read_bytes, io_write_bytes): (Option<u64>, Option<u64>) = match reading.io {
            Some(io) => (Some(io.read_bytes), Some(io.write_bytes)),
            None => (None, None),
        };
        let cpu_ticks: u64 = stat.utime.saturating_add(stat.stime);
        Some(
            ProcessSnapshot {
                pid: reading.pid,
                rss_bytes: kb_or_zero(status.vmrss),
                vms_bytes: kb_or_zero(status.vmsize),
                uss_bytes,
                pss_bytes,
                io_read_bytes,
                io_write_bytes,
                cpu_time_seconds: seconds_of_ticks(cpu_ticks, self.ticks_per_second),
                major_page_faults: Some(stat.majflt),
                minor_page_faults: Some(stat.minflt),
                voluntary_ctx_switches: status.voluntary_ctxt_switches,
                involuntary_ctx_switches: status.nonvoluntary_ctxt_switches,
                thread_count: Some(status.threads),
                swap_bytes: match status.vmswap {
                    Some(kb) => Some(kb_to_bytes(kb)),
                    None => None,
                },
            },
        )
    }

    /// Makes the snapshots of a whole tree. A process that could not be read is left out.
    pub fn sample_tree(&self, readings: &Vec<LinuxReading>) -> (r: Vec<ProcessSnapshot>)
        ensures
            r@ == self.shown_tree(readings@),
    {
        let mut out: Vec<ProcessSnapshot> = Vec::new();
        let n: usize = readings.len();
        let mut i: usize = 0;
        while i < n
            invariant
                i <= n == readings@.len(),
                out@ == self.shown_tree(readings@.take(i as int)),
            decreases n - i,
        {
            if let Some(snap) = self.sample_process(&readings[i]) {
                out.push(snap);
            }
            proof {
                assert(readings@.take(i + 1).drop_last() =~= readings@.take(i as int));
            }
            i = i + 1;
        }
        assert(readings@.take(n as int) =~= readings@);
        out
    }
}

/// `kb` in bytes, at most the largest `u64`.
fn kb_to_bytes(kb: u64) -> (r: u64)
    ensures
        r == kb_in_bytes(kb),
{
    if kb <= u64::MAX / BYTES_PER_KB {
        kb * BYTES_PER_KB
    } else {
        u64::MAX
    }
}

/// `kb` in bytes; nothing where it is not shown.
fn kb_or_zero(kb: Option<u64>) -> (r: u64)
    ensures
        r == shown_kb(kb),
{
    match kb {
        Some(v) => kb_to_bytes(v),
        None => 0,
    }
}

/// `ticks` in seconds.
fn seconds_of_ticks(ticks: u64, rate: u64) -> (r: Quantity)
    ensures
        r == Quantity::of(ticks as nat).quotient(Quantity::of(rate as nat)),
{
    proof {
        lemma_nearest_is_duration();
    }
    Quantity::of_u64(ticks).ratio_to(&Quantity::of_u64(rate))
}

/// Looks up the amount under `name`.
fn entry(map: &MemoryMap, name: &str) -> (r: Option<u64>)
    ensures
        r == entry_under(map.entries@, name@),
{
    let n: usize = map.entries.len();
    let mut i: usize = 0;
    assert(map.entries@.skip(0) =~= map.entries@);
    while i < n
        invariant
            i <= n == map.entries@.len(),
            entry_under(map.entries@, name@) == entry_under(map.entries@.skip(i as int), name@),
        decreases n - i,
    {
        let ghost rest: Seq<MapEntry> = map.entries@.skip(i as int);
        assert(rest.first() == map.entries@[i as int]);
        if same_text(map.entries[i].name.as_str(), name) {
            return Some(map.entries[i].value);
        }
        assert(rest.drop_first() =~= map.entries@.skip(i + 1));
        i = i + 1;
    }
    assert(map.entries@.skip(n as int) =~= Seq::empty());
    None
}

/// Reads unique and proportional size from the first map of a rollup: `None` for both where
/// there is none.
pub fn read_smaps_rollup(rollup: &Option<Vec<MemoryMap>>) -> (r: (Option<u64>, Option<u64>))
    ensures
        r.0 == unique_size(*rollup),
        r.1 == proportional_size(*rollup),
{
    match rollup {
        Some(maps) => {
            if maps.len() == 0 {
                return (None, None);
            }
            let map: &MemoryMap = &maps[0];
            let private_clean: u64 = match entry(map, "Private_Clean") {
                Some(v) => v,
                None => 0,
            };
            let private_dirty: u64 = match entry(map, "Private_Dirty") {
                Some(v) => v,
                None => 0,
            };
            (Some(private_clean.saturating_add(private_dirty)), entry(map, "Pss"))
        },
        None => (None, None),
    }
}

/// The one-minute load average from the text of `/proc/loadavg`: `None` where the file could not
/// be read, or does not begin with a number.
pub fn read_loadavg_1m(text: Option<&str>) -> (r: Option<Quantity>)
    ensures
        r == match text {
            Some(t) => amount_of(first_word(t@)),
            None => None,
        },
{
    match text {
        Some(t) => parse_loadavg_1m(t),
        None => None,
    }
}

/// The system page cache in MiB, from the bytes that `/proc/meminfo` gives under `Cached`: `None`
/// where they could not be read.
pub fn read_page_cache_mb(cached: Option<u64>) -> (q: Option<Quantity>)
    ensures
        may_be_mebibytes(q, cached),
{
    match cached {
        Some(bytes) => Some(Quantity::mebibytes(bytes)),
        None => None,
    }
}

} // verus!

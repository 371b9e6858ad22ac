use tricord::platform::linux::{
    read_loadavg_1m, read_page_cache_mb, read_smaps_rollup, IoReading, LinuxReading, LinuxSampler,
    MapEntry, MemoryMap, StatReading, StatusReading,
};
use tricord::platform::macos::{MacosReading, MacosSampler, TaskReading, Timebase, UsageReading};
use tricord::platform::tree::{collect_descendants, ProcessLink};

fn link(parent: i32, pid: i32) -> ProcessLink {
    ProcessLink { parent, pid }
}

#[test]
fn a_root_without_children_stands_alone() {
    assert_eq!(collect_descendants(7, &vec![]), Some(vec![7]));
    assert_eq!(collect_descendants(7, &vec![link(1, 2), link(2, 3)]), Some(vec![7]));
}

#[test]
fn descendants_come_in_the_order_of_the_walk() {
    let links = vec![link(1, 2), link(2, 4), link(1, 3), link(3, 5), link(9, 10), link(5, 6)];
    assert_eq!(collect_descendants(1, &links), Some(vec![1, 2, 3, 5, 6, 4]));
    assert_eq!(collect_descendants(3, &links), Some(vec![3, 5, 6]));
}

#[test]
fn a_long_chain_is_followed_to_its_end() {
    let links: Vec<ProcessLink> = (0..5000).map(|i| link(i, i + 1)).collect();
    let tree = collect_descendants(0, &links).unwrap();
    assert_eq!(tree.len(), 5001);
    assert_eq!(tree[5000], 5000);
}

#[test]
fn a_cycle_below_the_root_is_noticed() {
    let links = vec![link(1, 2), link(2, 3), link(3, 2)];
    assert_eq!(collect_descendants(1, &links), None);
    assert_eq!(collect_descendants(0, &vec![link(0, 0)]), None);
    // A cycle elsewhere does not matter.
    assert_eq!(collect_descendants(4, &links), Some(vec![4]));
}

fn entry(name: &str, value: u64) -> MapEntry {
    MapEntry { name: name.to_string(), value }
}

fn reading(pid: i32) -> LinuxReading {
    LinuxReading {
        pid,
        stat: Some(StatReading { utime: 150, stime: 50, minflt: 11, majflt: 7 }),
        status: Some(StatusReading {
            vmrss: Some(10),
            vmsize: None,
            vmswap: Some(u64::MAX),
            voluntary_ctxt_switches: Some(3),
            nonvoluntary_ctxt_switches: None,
            threads: 4,
        }),
        rollup: Some(vec![MemoryMap {
            entries: vec![
                entry("Pss", 4096),
                entry("Private_Clean", 1000),
                entry("Private_Dirty", 24),
            ],
        }]),
        io: Some(IoReading { read_bytes: 5, write_bytes: 6 }),
    }
}

#[test]
fn linux_snapshot_converts_units() {
    let sampler = LinuxSampler::new(100);
    let snap = sampler.sample_process(&reading(42)).expect("snapshot");
    assert_eq!(snap.pid, 42);
    assert_eq!(snap.rss_bytes, 10 * 1024);
    assert_eq!(snap.vms_bytes, 0);
    assert_eq!(snap.uss_bytes, Some(1024));
    assert_eq!(snap.pss_bytes, Some(4096));
    assert_eq!(snap.io_read_bytes, Some(5));
    assert_eq!(snap.io_write_bytes, Some(6));
    assert_eq!(f64::from_bits(snap.cpu_time_seconds.to_bits()), 2.0);
    assert_eq!(snap.major_page_faults, Some(7));
    assert_eq!(snap.minor_page_faults, Some(11));
    assert_eq!(snap.voluntary_ctx_switches, Some(3));
    assert_eq!(snap.involuntary_ctx_switches, None);
    assert_eq!(snap.thread_count, Some(4));
    assert_eq!(snap.swap_bytes, Some(u64::MAX));
}

#[test]
fn linux_leaves_out_processes_that_cannot_be_read() {
    let sampler = LinuxSampler::new(100);
    let mut gone = reading(1);
    gone.stat = None;
    let mut hidden = reading(2);
    hidden.status = None;
    let mut bare = reading(3);
    bare.io = None;
    bare.rollup = None;
    let snaps = sampler.sample_tree(&vec![gone, reading(9), hidden, bare]);
    let pids: Vec<i32> = snaps.iter().map(|s| s.pid).collect();
    assert_eq!(pids, vec![9, 3]);
    assert_eq!(snaps[1].io_read_bytes, None);
    assert_eq!(snaps[1].uss_bytes, None);
    assert_eq!(snaps[1].pss_bytes, None);
}

#[test]
fn rollup_without_maps_or_entries() {
    assert_eq!(read_smaps_rollup(&None), (None, None));
    assert_eq!(read_smaps_rollup(&Some(vec![])), (None, None));
    let empty = Some(vec![MemoryMap { entries: vec![] }]);
    assert_eq!(read_smaps_rollup(&empty), (Some(0), None));
    let huge = Some(vec![MemoryMap {
        entries: vec![entry("Private_Dirty", u64::MAX), entry("Private_Clean", 1)],
    }]);
    assert_eq!(read_smaps_rollup(&huge), (Some(u64::MAX), None));
}

#[test]
fn load_average_is_the_first_word() {
    let load = |text: &str| read_loadavg_1m(Some(text)).map(|q| q.to_fixed(2));
    assert_eq!(load("0.52 0.58 0.59 1/467 12345\n"), Some("0.52".to_string()));
    assert_eq!(load("  \t12.5 x"), Some("12.50".to_string()));
    assert_eq!(load("\u{2003}7"), Some("7.00".to_string()));
    assert_eq!(load("-.5"), Some("-0.50".to_string()));
    assert_eq!(load("+3."), Some("3.00".to_string()));
    assert_eq!(load("1e2"), Some("100.00".to_string()));
    assert_eq!(load("125e-2"), Some("1.25".to_string()));
    assert_eq!(load("0e999"), Some("0.00".to_string()));
}

#[test]
fn what_is_no_numeral_is_no_load_average() {
    for text in ["", "   ", ".", "+", "x", "1x", "1e", "1e+", "1.2.3", "--1", "0x10", "1,5", "infi", "nan1", "in"] {
        assert!(read_loadavg_1m(Some(text)).is_none(), "{text:?}");
        assert!(
            text.split_whitespace().next().map_or(true, |w| w.parse::<f64>().is_err()),
            "{text:?}"
        );
    }
    assert!(read_loadavg_1m(None).is_none());
}

#[test]
fn load_average_agrees_with_float_parsing() {
    for text in [
        "0.00", "1.25", "31.07", "0.5e1", "5E+2", "00012.50", "3e-2", "99999.99", "1e-20", "1e40",
        "1e400", "-1e400", "1e-400", "0e999", "-0", "inf", "-INF", "Infinity", "+infinity", "nan",
        "NaN", "-nan", "123456789012345678901234567890.123456789012345678901234567890",
        "0.1000000000000000055511151231257827021181583404541015625",
        "9007199254740993", "9007199254740992.9999999999999999999999", "2.2250738585072011e-308",
        "4.9e-324", "2.4703282292062327e-324", "2.4703282292062328e-324", "1.7976931348623157e308",
        "1.7976931348623159e308", "179769313486231580793e289", "0.000000000000000000000000000001",
        "1e99999999999999999999999999999999999999999999", "1e-9999999999999999999999999999999999999",
        "0.3e99999999999999999999999999999999999999999999", "100e-2", "+3.", "-.5",
    ] {
        let float: f64 = text.parse().unwrap();
        let found = read_loadavg_1m(Some(text)).expect(text);
        assert_eq!(found.to_bits(), float.to_bits(), "{text}");
    }
}

#[test]
fn page_cache_is_in_mebibytes() {
    assert_eq!(read_page_cache_mb(Some(3 * 1024 * 1024 / 2)).unwrap().to_fixed(2), "1.50");
    assert!(read_page_cache_mb(None).is_none());
}

#[test]
fn macos_snapshot_uses_footprint_for_both_sizes() {
    let sampler = MacosSampler::new();
    let timebase = Timebase::new(125, 3);
    let task = TaskReading {
        resident_size: 11,
        virtual_size: 22,
        total_user: 20_000_000,
        total_system: 4_000_000,
    };
    let usage = UsageReading { phys_footprint: 7, diskio_bytesread: 8, diskio_byteswritten: 9 };
    let full = MacosReading { pid: 5, task: Some(task), usage: Some(usage) };
    let snap = sampler.sample_process(&timebase, &full).expect("snapshot");
    assert_eq!(snap.pid, 5);
    assert_eq!(snap.rss_bytes, 11);
    assert_eq!(snap.vms_bytes, 22);
    assert_eq!(snap.uss_bytes, Some(7));
    assert_eq!(snap.pss_bytes, Some(7));
    assert_eq!(snap.io_read_bytes, Some(8));
    assert_eq!(snap.io_write_bytes, Some(9));
    let seconds = |units: u64| (units as f64) * 125.0 / 3.0 / 1_000_000_000.0;
    assert_eq!(
        f64::from_bits(snap.cpu_time_seconds.to_bits()),
        seconds(20_000_000) + seconds(4_000_000)
    );
    assert_eq!(snap.thread_count, None);
    assert_eq!(snap.major_page_faults, None);

    let bare = MacosReading { pid: 6, task: Some(task), usage: None };
    let gone = MacosReading { pid: 7, task: None, usage: Some(usage) };
    let tree = MacosSampler::default().sample_tree(&timebase, &vec![gone, bare, full]);
    let pids: Vec<i32> = tree.iter().map(|s| s.pid).collect();
    assert_eq!(pids, vec![6, 5]);
    assert_eq!(tree[0].pss_bytes, None);
}

#[test]
fn a_zero_denominator_counts_as_one() {
    let seconds = |timebase: Timebase, time: u64| {
        f64::from_bits(timebase.mach_time_to_seconds(time).to_bits())
    };
    assert_eq!(seconds(Timebase::new(1, 0), 5), 5.0 / 1_000_000_000.0);
    assert_eq!(seconds(Timebase::new(0, 7), 5), 0.0);
    // One unit on Apple Silicon lasts longer than 41 nanoseconds.
    assert_eq!(seconds(Timebase::new(125, 3), 1), 1.0 * 125.0 / 3.0 / 1_000_000_000.0);
    assert!(seconds(Timebase::new(125, 3), 1) > 41.6e-9);
    assert_eq!(
        seconds(Timebase::new(u32::MAX, 1), u64::MAX),
        (u64::MAX as f64) * (u32::MAX as f64) / 1.0 / 1_000_000_000.0
    );
}

#[test]
fn linux_cpu_time_is_the_quotient_of_two_floats() {
    for (utime, stime, rate) in [(1, 2, 100), (7, 0, 300), (u64::MAX, 5, 100), (1 << 60, 3, 1024)] {
        let mut one = reading(1);
        one.stat = Some(StatReading { utime, stime, minflt: 0, majflt: 0 });
        let snap = LinuxSampler::new(rate).sample_process(&one).unwrap();
        assert_eq!(
            f64::from_bits(snap.cpu_time_seconds.to_bits()),
            (utime.saturating_add(stime) as f64) / (rate as f64)
        );
    }
}

#[test]
fn a_clock_rate_of_zero_gives_no_finite_time() {
    let seconds = |utime: u64| {
        let mut one = reading(1);
        one.stat = Some(StatReading { utime, stime: 0, minflt: 0, majflt: 0 });
        let snap = LinuxSampler::new(0).sample_process(&one).unwrap();
        f64::from_bits(snap.cpu_time_seconds.to_bits())
    };
    assert_eq!(seconds(3), f64::INFINITY);
    assert!(seconds(0).is_nan());
}

use std::collections::HashMap;

use tricord::quantity::Quantity;
use tricord::record::{BenchmarkRecord, TickRecord};
use tricord::sampler::account::{cumulative_totals, ProcessAccum};
use tricord::sampler::cycle::{final_record, Outcome, Request, SamplerLoop};
use tricord::sampler::{ProcessSnapshot, SamplerOptions, SamplerState, DEFAULT_INTERVAL_NANOS};

fn float(q: Quantity) -> f64 {
    f64::from_bits(q.to_bits())
}

fn q(value: f64) -> Quantity {
    Quantity::from_bits(value.to_bits())
}

#[test]
fn empty_state_records_no_data() {
    let state = SamplerState::default();
    let record = state.into_record(q(1.0));
    assert!(!record.data_collected);
    assert!((float(record.running_time) - 1.0).abs() < 1e-9);
    assert!(record.max_rss.is_none());
}

#[test]
fn single_snapshot_populates_record() {
    let mut state = SamplerState::default();
    state.absorb(&[ProcessSnapshot {
        pid: 100,
        rss_bytes: 10 * 1024 * 1024,
        vms_bytes: 100 * 1024 * 1024,
        uss_bytes: Some(8 * 1024 * 1024),
        pss_bytes: Some(9 * 1024 * 1024),
        io_read_bytes: Some(1024 * 1024),
        io_write_bytes: Some(2 * 1024 * 1024),
        cpu_time_seconds: q(0.5),
        ..Default::default()
    }]);
    let record = state.into_record(q(2.0));
    assert!(record.data_collected);
    assert_eq!(record.max_rss.map(float), Some(10.0));
    assert_eq!(record.max_vms.map(float), Some(100.0));
    assert_eq!(record.max_uss.map(float), Some(8.0));
    assert_eq!(record.max_pss.map(float), Some(9.0));
    assert_eq!(record.io_in.map(float), Some(1.0));
    assert_eq!(record.io_out.map(float), Some(2.0));
    assert!((float(record.cpu_time) - 0.5).abs() < 1e-9);
    assert!((float(record.mean_load) - 25.0).abs() < 1e-9); // 0.5s cpu / 2.0s wall = 25%.
    // Page faults default to None when the platform never reported them.
    assert!(record.major_page_faults.is_none());
    assert!(record.minor_page_faults.is_none());
}

#[test]
fn memory_max_uses_summed_tree() {
    let mut state = SamplerState::default();
    // Tick 1: parent + child, total = 30 MiB RSS.
    state.absorb(&[
        ProcessSnapshot {
            pid: 1,
            rss_bytes: 10 * 1024 * 1024,
            vms_bytes: 0,
            cpu_time_seconds: q(0.0),
            ..Default::default()
        },
        ProcessSnapshot {
            pid: 2,
            rss_bytes: 20 * 1024 * 1024,
            vms_bytes: 0,
            cpu_time_seconds: q(0.0),
            ..Default::default()
        },
    ]);
    // Tick 2: parent only, total = 25 MiB RSS — peak of this tick is lower.
    state.absorb(&[ProcessSnapshot {
        pid: 1,
        rss_bytes: 25 * 1024 * 1024,
        vms_bytes: 0,
        cpu_time_seconds: q(0.0),
        ..Default::default()
    }]);
    let record = state.into_record(q(1.0));
    assert_eq!(record.max_rss.map(float), Some(30.0)); // peak across snapshots
}

#[test]
fn io_and_cpu_aggregate_across_pids_after_exit() {
    let mut state = SamplerState::default();
    // Tick 1: child A and child B both alive with I/O and CPU usage.
    state.absorb(&[
        ProcessSnapshot {
            pid: 10,
            rss_bytes: 1,
            vms_bytes: 1,
            io_read_bytes: Some(50 * 1024 * 1024),
            io_write_bytes: Some(10 * 1024 * 1024),
            cpu_time_seconds: q(1.0),
            ..Default::default()
        },
        ProcessSnapshot {
            pid: 11,
            rss_bytes: 1,
            vms_bytes: 1,
            io_read_bytes: Some(20 * 1024 * 1024),
            io_write_bytes: Some(5 * 1024 * 1024),
            cpu_time_seconds: q(0.5),
            ..Default::default()
        },
    ]);
    // Tick 2: child B has exited; child A continues.
    state.absorb(&[ProcessSnapshot {
        pid: 10,
        rss_bytes: 1,
        vms_bytes: 1,
        io_read_bytes: Some(60 * 1024 * 1024),
        io_write_bytes: Some(15 * 1024 * 1024),
        cpu_time_seconds: q(1.5),
        ..Default::default()
    }]);
    let record = state.into_record(q(1.0));
    // io_in: child A latest (60) + child B latest (20) = 80 MiB
    assert_eq!(record.io_in.map(float), Some(80.0));
    assert_eq!(record.io_out.map(float), Some(20.0));
    // cpu_time: child A (1.5) + child B (0.5) = 2.0s
    assert!((float(record.cpu_time) - 2.0).abs() < 1e-9);
}

#[test]
fn tick_summarizes_live_memory_and_cumulative_io_cpu() {
    let mut state = SamplerState::default();
    let snaps = &[ProcessSnapshot {
        pid: 1,
        rss_bytes: 12 * 1024 * 1024,
        vms_bytes: 100 * 1024 * 1024,
        uss_bytes: Some(8 * 1024 * 1024),
        pss_bytes: Some(9 * 1024 * 1024),
        io_read_bytes: Some(2 * 1024 * 1024),
        io_write_bytes: Some(3 * 1024 * 1024),
        cpu_time_seconds: q(0.7),
        ..Default::default()
    }];
    state.absorb(snaps);
    let tick = state.tick(snaps, q(1.5)).expect("tick");
    assert!((float(tick.elapsed) - 1.5).abs() < 1e-9);
    assert!((float(tick.rss) - 12.0).abs() < 1e-9);
    assert!((float(tick.vms) - 100.0).abs() < 1e-9);
    assert_eq!(tick.uss.map(float), Some(8.0));
    assert_eq!(tick.pss.map(float), Some(9.0));
    assert_eq!(tick.io_in.map(float), Some(2.0));
    assert_eq!(tick.io_out.map(float), Some(3.0));
    assert!((float(tick.cpu_time) - 0.7).abs() < 1e-9);
    assert_eq!(tick.n_procs, 1);
}

#[test]
fn tick_returns_none_for_empty_snapshots() {
    let mut state = SamplerState::default();
    assert!(state.tick(&[], q(1.0)).is_none());
}

#[test]
fn tick_io_and_cpu_include_exited_children() {
    let mut state = SamplerState::default();
    // Tick 1: parent + child both alive with I/O and CPU.
    state.absorb(&[
        ProcessSnapshot {
            pid: 99,
            rss_bytes: 1,
            vms_bytes: 1,
            io_read_bytes: Some(50 * 1024 * 1024),
            io_write_bytes: Some(10 * 1024 * 1024),
            cpu_time_seconds: q(0.5),
            ..Default::default()
        },
        ProcessSnapshot {
            pid: 1,
            rss_bytes: 1,
            vms_bytes: 1,
            io_read_bytes: Some(0),
            io_write_bytes: Some(0),
            cpu_time_seconds: q(0.1),
            ..Default::default()
        },
    ]);
    // Tick 2: child (pid 99) exited; only parent (pid 1) sampled.
    let snaps = &[ProcessSnapshot {
        pid: 1,
        rss_bytes: 2,
        vms_bytes: 2,
        io_read_bytes: Some(0),
        io_write_bytes: Some(0),
        cpu_time_seconds: q(0.2),
        ..Default::default()
    }];
    state.absorb(snaps);
    let tick = state.tick(snaps, q(1.0)).expect("tick");
    // I/O cumulative: pid 99 last seen 50 + pid 1 last seen 0 = 50 MiB.
    assert_eq!(tick.io_in.map(float), Some(50.0));
    assert_eq!(tick.io_out.map(float), Some(10.0));
    // CPU cumulative: pid 99 last 0.5 + pid 1 last 0.2 = 0.7s.
    assert!((float(tick.cpu_time) - 0.7).abs() < 1e-9);
    // Only pid 1 is alive in this tick.
    assert_eq!(tick.n_procs, 1);
}

#[test]
fn io_read_only_leaves_io_out_none() {
    // If a process exposes io_read_bytes but never io_write_bytes (or vice
    // versa), the absent side must remain None — not silently coerced to
    // Some(0) just because the other side was observed.
    let mut state = SamplerState::default();
    state.absorb(&[ProcessSnapshot {
        pid: 1,
        rss_bytes: 1,
        vms_bytes: 1,
        io_read_bytes: Some(4 * 1024 * 1024),
        io_write_bytes: None,
        cpu_time_seconds: q(0.0),
        ..Default::default()
    }]);
    let record = state.into_record(q(1.0));
    assert_eq!(record.io_in.map(float), Some(4.0));
    assert!(record.io_out.is_none(), "io_out must be None when never observed");
}

#[test]
fn io_write_only_leaves_io_in_none() {
    let mut state = SamplerState::default();
    state.absorb(&[ProcessSnapshot {
        pid: 1,
        rss_bytes: 1,
        vms_bytes: 1,
        io_read_bytes: None,
        io_write_bytes: Some(8 * 1024 * 1024),
        cpu_time_seconds: q(0.0),
        ..Default::default()
    }]);
    let record = state.into_record(q(1.0));
    assert!(record.io_in.is_none(), "io_in must be None when never observed");
    assert_eq!(record.io_out.map(float), Some(8.0));
}

#[test]
fn page_faults_aggregate_sums_per_pid_max_across_tree() {
    let mut state = SamplerState::default();
    // Tick 1: child A (100 maj, 5000 min), child B (50 maj, 2000 min).
    state.absorb(&[
        ProcessSnapshot {
            pid: 10,
            rss_bytes: 1,
            vms_bytes: 1,
            major_page_faults: Some(100),
            minor_page_faults: Some(5000),
            ..Default::default()
        },
        ProcessSnapshot {
            pid: 11,
            rss_bytes: 1,
            vms_bytes: 1,
            major_page_faults: Some(50),
            minor_page_faults: Some(2000),
            ..Default::default()
        },
    ]);
    // Tick 2: B exited; A reached (150, 6500).
    state.absorb(&[ProcessSnapshot {
        pid: 10,
        rss_bytes: 1,
        vms_bytes: 1,
        major_page_faults: Some(150),
        minor_page_faults: Some(6500),
        ..Default::default()
    }]);
    let record = state.into_record(q(1.0));
    // Aggregate = sum of per-PID maxima = A(150,6500) + B(50,2000)
    assert_eq!(record.major_page_faults, Some(200));
    assert_eq!(record.minor_page_faults, Some(8500));
}

#[test]
fn tick_page_faults_are_per_tick_deltas() {
    let mut state = SamplerState::default();
    // Tick 1: pid 1 at (10, 100). First observation → delta from 0.
    let t1 = [ProcessSnapshot {
        pid: 1,
        rss_bytes: 1,
        vms_bytes: 1,
        major_page_faults: Some(10),
        minor_page_faults: Some(100),
        ..Default::default()
    }];
    state.absorb(&t1);
    let tick1 = state.tick(&t1, q(0.5)).expect("tick1");
    assert_eq!(tick1.major_page_faults, Some(10));
    assert_eq!(tick1.minor_page_faults, Some(100));

    // Tick 2: pid 1 at (25, 400). Delta should be (15, 300).
    let t2 = [ProcessSnapshot {
        pid: 1,
        rss_bytes: 1,
        vms_bytes: 1,
        major_page_faults: Some(25),
        minor_page_faults: Some(400),
        ..Default::default()
    }];
    state.absorb(&t2);
    let tick2 = state.tick(&t2, q(1.0)).expect("tick2");
    assert_eq!(tick2.major_page_faults, Some(15));
    assert_eq!(tick2.minor_page_faults, Some(300));
}

#[test]
fn tick_page_faults_saturate_on_pid_reuse() {
    // If a PID is reused (process exits, OS reassigns the pid), the new
    // process starts its counters at 0. saturating_sub prevents a
    // phantom "negative" delta from becoming a huge u64 wrap-around.
    let mut state = SamplerState::default();
    let t1 = [ProcessSnapshot {
        pid: 7,
        rss_bytes: 1,
        vms_bytes: 1,
        major_page_faults: Some(500),
        minor_page_faults: Some(10_000),
        ..Default::default()
    }];
    state.absorb(&t1);
    let _ = state.tick(&t1, q(0.5));
    // Same pid, lower counters (new process under reused pid).
    let t2 = [ProcessSnapshot {
        pid: 7,
        rss_bytes: 1,
        vms_bytes: 1,
        major_page_faults: Some(3),
        minor_page_faults: Some(40),
        ..Default::default()
    }];
    state.absorb(&t2);
    let tick = state.tick(&t2, q(1.0)).expect("tick2");
    // Saturating delta is 0, not 2^64 - 497.
    assert_eq!(tick.major_page_faults, Some(0));
    assert_eq!(tick.minor_page_faults, Some(0));
}

#[test]
fn tick_page_faults_none_when_no_process_exposes_them() {
    let mut state = SamplerState::default();
    let snaps = [ProcessSnapshot {
        pid: 1,
        rss_bytes: 1,
        vms_bytes: 1,
        major_page_faults: None,
        minor_page_faults: None,
        ..Default::default()
    }];
    state.absorb(&snaps);
    let tick = state.tick(&snaps, q(0.5)).expect("tick");
    assert!(tick.major_page_faults.is_none());
    assert!(tick.minor_page_faults.is_none());
}

#[test]
fn missing_uss_and_io_remain_none_in_record() {
    let mut state = SamplerState::default();
    state.absorb(&[ProcessSnapshot {
        pid: 1,
        rss_bytes: 1024 * 1024,
        vms_bytes: 1024 * 1024,
        uss_bytes: None,
        pss_bytes: None,
        io_read_bytes: None,
        io_write_bytes: None,
        cpu_time_seconds: q(0.0),
        ..Default::default()
    }]);
    let record = state.into_record(q(1.0));
    assert!(record.max_uss.is_none());
    assert!(record.max_pss.is_none());
    assert!(record.io_in.is_none());
    assert!(record.io_out.is_none());
}

fn snap(pid: i32, rss: u64, switches: Option<u64>, threads: Option<u64>) -> ProcessSnapshot {
    ProcessSnapshot {
        pid,
        rss_bytes: rss,
        voluntary_ctx_switches: switches,
        thread_count: threads,
        ..Default::default()
    }
}

#[test]
fn sums_saturate() {
    let mut state = SamplerState::default();
    let tick = [
        ProcessSnapshot { pid: 1, rss_bytes: u64::MAX, io_read_bytes: Some(u64::MAX), ..Default::default() },
        ProcessSnapshot { pid: 2, rss_bytes: 5, io_read_bytes: Some(5), ..Default::default() },
    ];
    state.absorb(&tick);
    let record = state.into_record(q(1.0));
    assert_eq!(record.max_rss.map(float), Some(u64::MAX as f64 / 1048576.0));
    assert_eq!(record.io_in.map(float), Some(u64::MAX as f64 / 1048576.0));
}

#[test]
fn threads_and_processes_peak_per_tick() {
    let mut state = SamplerState::default();
    state.absorb(&[snap(1, 1, None, Some(3)), snap(2, 1, None, None), snap(3, 1, None, Some(4))]);
    state.absorb(&[snap(1, 1, None, Some(6))]);
    state.absorb(&[]);
    let record = state.into_record(q(1.0));
    assert_eq!(record.peak_n_threads, Some(7));
    assert_eq!(record.peak_n_procs, 3);
}

#[test]
fn the_order_of_ticks_does_not_matter_and_repeats_change_nothing() {
    let a = [snap(1, 10, Some(5), Some(1)), snap(2, 20, Some(1), None)];
    let b = [snap(1, 25, Some(9), Some(4))];
    let mut one = SamplerState::default();
    one.absorb(&a);
    one.absorb(&b);
    let mut other = SamplerState::default();
    other.absorb(&b);
    other.absorb(&a);
    other.absorb(&a);
    let (one, other) = (one.into_record(q(5.0)), other.into_record(q(5.0)));
    assert_eq!(one.to_tsv_row(), other.to_tsv_row());
    assert_eq!(one.voluntary_ctx_switches, Some(10));
    assert_eq!(other.voluntary_ctx_switches, Some(10));
    assert_eq!(one.peak_n_threads, other.peak_n_threads);
}

#[test]
fn peaks_and_totals_never_fall() {
    let mut state = SamplerState::default();
    let first = [snap(1, 40, Some(8), Some(2)), snap(2, 2, Some(4), None)];
    let second = [snap(1, 10, Some(9), None)];
    state.absorb(&first);
    let one = state.tick(&first, q(1.0)).unwrap();
    state.absorb(&second);
    let two = state.tick(&second, q(2.0)).unwrap();
    assert_eq!(one.voluntary_ctx_switches, Some(12));
    assert_eq!(two.voluntary_ctx_switches, Some(1));
    assert_eq!(two.n_threads, None);
    let record = state.into_record(q(3.0));
    assert_eq!(record.max_rss.map(float), Some(42.0 / 1048576.0));
    // The rows add up to the total.
    assert_eq!(record.voluntary_ctx_switches, Some(13));
}

#[test]
fn io_and_cpu_never_fall_from_row_to_row() {
    let mut state = SamplerState::default();
    let busy = |pid: i32, read: u64, seconds: f64| ProcessSnapshot {
        pid,
        io_read_bytes: Some(read),
        cpu_time_seconds: q(seconds),
        ..Default::default()
    };
    let mut last = (0.0, 0.0);
    for tick in [
        vec![busy(1, 9, 0.1), busy(2, 3, 0.2)],
        vec![busy(2, 1, 0.05)],
        vec![busy(3, 0, 0.3)],
        vec![busy(3, 0, f64::NAN), busy(4, 0, -1.0)],
    ] {
        state.absorb(&tick);
        let row = state.tick(&tick, q(1.0)).unwrap();
        let now = (float(row.io_in.unwrap()), float(row.cpu_time));
        assert!(now.0 >= last.0 && now.1 >= last.1);
        last = now;
    }
    assert_eq!(last, (12.0 / 1048576.0, 0.6));
}

#[test]
fn cpu_time_is_the_longest_of_each_process() {
    let mut state = SamplerState::default();
    let time = |pid: i32, seconds: f64| ProcessSnapshot {
        pid,
        cpu_time_seconds: q(seconds),
        ..Default::default()
    };
    state.absorb(&[time(1, 0.1), time(2, 0.2)]);
    state.absorb(&[time(1, 0.05)]);
    let record = state.into_record(q(0.7));
    assert_eq!(float(record.cpu_time), 0.1 + 0.2);
    assert_eq!(float(record.mean_load), ((0.1 + 0.2) / 0.7) * 100.0);
}

#[test]
fn an_infinite_time_stays_infinite() {
    let mut state = SamplerState::default();
    state.absorb(&[ProcessSnapshot {
        pid: 1,
        cpu_time_seconds: q(f64::INFINITY),
        ..Default::default()
    }]);
    let record = state.into_record(q(2.0));
    assert_eq!(float(record.cpu_time), f64::INFINITY);
    assert_eq!(float(record.mean_load), f64::INFINITY);
}

fn total_of(times: &[f64]) -> f64 {
    let mut accounts: HashMap<i32, ProcessAccum> = HashMap::new();
    for (pid, time) in (1..).zip(times) {
        let account = ProcessAccum { cpu_time_seconds: q(*time), ..ProcessAccum::default() };
        accounts.insert(pid, account);
    }
    float(cumulative_totals(&accounts).cpu_time)
}

#[test]
fn cpu_times_of_accounts_are_summed_with_their_signs() {
    assert_eq!(total_of(&[]).to_bits(), 0.0f64.to_bits());
    assert_eq!(total_of(&[-1.0]), -1.0);
    assert_eq!(total_of(&[1.5, -0.25, 2.0]), 3.25);
    assert_eq!(total_of(&[0.5, -2.75]), -2.25);
    assert_eq!(total_of(&[3.0, -3.0]).to_bits(), 0.0f64.to_bits());
    assert_eq!(total_of(&[-0.0]).to_bits(), 0.0f64.to_bits());
    assert_eq!(total_of(&[f64::MAX, f64::MAX]), f64::INFINITY);
    assert_eq!(total_of(&[-f64::MAX, -f64::MAX]), f64::NEG_INFINITY);
}

#[test]
fn cpu_times_that_are_not_finite_decide_the_sum() {
    assert!(total_of(&[f64::NAN]).is_nan());
    assert!(total_of(&[1.0, f64::NAN, f64::INFINITY]).is_nan());
    assert!(total_of(&[-f64::NAN, 2.0]).is_nan());
    assert_eq!(total_of(&[1.0, f64::INFINITY, -5.0]), f64::INFINITY);
    assert_eq!(total_of(&[1.0, f64::NEG_INFINITY]), f64::NEG_INFINITY);
    assert!(total_of(&[f64::INFINITY, f64::NEG_INFINITY]).is_nan());
}

#[test]
fn the_same_tick_twice_shows_no_growth() {
    let mut state = SamplerState::default();
    let tick = [snap(1, 1, Some(9), None), snap(2, 1, None, None)];
    state.absorb(&tick);
    assert_eq!(state.tick(&tick, q(1.0)).unwrap().voluntary_ctx_switches, Some(9));
    let again = state.tick(&tick, q(2.0)).unwrap();
    assert_eq!(again.voluntary_ctx_switches, Some(0));
    assert_eq!(again.major_page_faults, None);
}

#[test]
fn a_count_that_drops_out_for_a_tick_shows_only_its_own_growth() {
    let mut state = SamplerState::default();
    for (reading, shown) in [(Some(10), Some(10)), (None, None), (Some(12), Some(2))] {
        let tick = [snap(1, 1, reading, None)];
        state.absorb(&tick);
        assert_eq!(state.tick(&tick, q(1.0)).unwrap().voluntary_ctx_switches, shown);
    }
    // So does a process that is missing from a tick.
    let other = [snap(2, 1, Some(3), None)];
    state.absorb(&other);
    assert_eq!(state.tick(&other, q(1.0)).unwrap().voluntary_ctx_switches, Some(3));
    let back = [snap(1, 1, Some(20), None)];
    state.absorb(&back);
    assert_eq!(state.tick(&back, q(1.0)).unwrap().voluntary_ctx_switches, Some(8));
}

#[test]
fn no_wall_time_means_no_load() {
    let mut state = SamplerState::default();
    state.absorb(&[ProcessSnapshot { pid: 1, cpu_time_seconds: q(5e-09), ..Default::default() }]);
    let record = state.into_record(q(0.0));
    assert_eq!(float(record.mean_load), 0.0);
    assert!(record.data_collected);
}

#[test]
fn the_trace_leaves_the_record_as_it_was() {
    let tick = [snap(1, 3, Some(7), Some(1))];
    let mut plain = SamplerState::default();
    plain.absorb(&tick);
    let mut traced = SamplerState::default();
    traced.absorb(&tick);
    let _ = traced.tick(&tick, q(1.0));
    assert_eq!(format!("{:?}", plain.into_record(q(9.0))), format!("{:?}", traced.into_record(q(9.0))));
}

#[test]
fn default_options_sample_twice_a_second_without_trace() {
    let options = SamplerOptions::default();
    assert_eq!(options.interval_nanos, DEFAULT_INTERVAL_NANOS);
    assert_eq!(options.interval_nanos, 500_000_000);
    assert!(options.trace_path.is_none());
}

/// Takes a loop from its first request to the next sample.
fn up_to_sample(sampler: &mut SamplerLoop) {
    assert!(matches!(sampler.advance(Outcome::StopFlag(false)), Request::Sleep));
    assert!(matches!(sampler.advance(Outcome::Slept), Request::ReadStopFlag));
    assert!(matches!(sampler.advance(Outcome::StopFlag(false)), Request::Sample));
}

fn sampled(snapshots: Vec<ProcessSnapshot>) -> Outcome {
    Outcome::Sampled { snapshots, elapsed_seconds: q(1.5) }
}

#[test]
fn the_loop_samples_between_two_clear_flags_and_writes_rows() {
    let (mut sampler, first) = SamplerLoop::start(true);
    assert!(matches!(first, Request::ReadStopFlag));
    up_to_sample(&mut sampler);
    match sampler.advance(sampled(vec![snap(1, 3 * 1024 * 1024, None, None)])) {
        Request::WriteTraceRow(row) => {
            assert_eq!(row, "1.5000\t3.00\t0.00\t-\t-\t-\t-\t0.00\t1")
        }
        other => panic!("unexpected {:?}", other),
    }
    assert!(matches!(sampler.advance(Outcome::RowWritten(true)), Request::ReadStopFlag));
    up_to_sample(&mut sampler);
    // A tick without processes writes no row.
    assert!(matches!(sampler.advance(sampled(vec![])), Request::ReadStopFlag));
    assert!(matches!(sampler.advance(Outcome::StopFlag(true)), Request::Finish));
    let record = sampler.into_state().into_record(q(1.0));
    assert_eq!(float(record.max_rss.unwrap()), 3.0);
}

#[test]
fn a_failed_trace_stays_off_and_the_run_goes_on() {
    let (mut sampler, _) = SamplerLoop::start(true);
    up_to_sample(&mut sampler);
    let request = sampler.advance(sampled(vec![snap(1, 10, None, None)]));
    assert!(matches!(request, Request::WriteTraceRow(_)));
    assert!(matches!(sampler.advance(Outcome::RowWritten(false)), Request::ReadStopFlag));
    up_to_sample(&mut sampler);
    let request = sampler.advance(sampled(vec![snap(1, 30, None, None)]));
    assert!(matches!(request, Request::ReadStopFlag));
    let record = sampler.into_state().into_record(q(1.0));
    assert_eq!(record.max_rss.map(float), Some(30.0 / 1048576.0));
}

#[test]
fn a_flag_set_during_the_sleep_skips_the_sample() {
    let (mut sampler, _) = SamplerLoop::start(false);
    assert!(matches!(sampler.advance(Outcome::StopFlag(false)), Request::Sleep));
    assert!(matches!(sampler.advance(Outcome::Slept), Request::ReadStopFlag));
    assert!(matches!(sampler.advance(Outcome::StopFlag(true)), Request::Finish));
    let record: BenchmarkRecord = final_record(Some(sampler.into_state()), q(2.0));
    assert!(!record.data_collected);
    assert_eq!(float(record.running_time), 2.0);
}

#[test]
fn a_lost_sampler_leaves_a_record_without_data() {
    let record = final_record(None, q(1.0));
    assert!(!record.data_collected);
    assert_eq!(record.to_tsv_row(), "1.0000\t0:00:01\tNA\tNA\tNA\tNA\tNA\tNA\tNA\tNA");
}

#[test]
fn tick_record_is_what_the_state_shows() {
    let mut state = SamplerState::default();
    let tick = [snap(4, 1024 * 1024, None, Some(2))];
    state.absorb(&tick);
    let row: TickRecord = state.tick(&tick, q(0.25)).unwrap();
    assert_eq!(row.to_tsv_row(), "0.2500\t1.00\t0.00\t-\t-\t-\t-\t0.00\t1");
    assert_eq!(row.n_threads, Some(2));
}

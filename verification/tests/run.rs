use tricord::format::OutputFormat;
use tricord::path::{components, same_path};
use tricord::quantity::Quantity;
use tricord::record::{BenchmarkRecord, SchemaMode};
use tricord::run::phases::summary_message;
use tricord::run::{
    clamp_exit_code, exit_code_for, run_exit_code, validate_output_paths, ChildStatus, Context,
    ErrorKind, Phase, Report, RunOptions, RunOutcome,
};
use tricord::signals::group_target;

fn exited(code: i32) -> ChildStatus {
    ChildStatus { code: Some(code), signal: None }
}

fn killed(signal: i32) -> ChildStatus {
    ChildStatus { code: None, signal: Some(signal) }
}

#[test]
fn exit_code_normal_exit_passes_through() {
    let status = exited(7); // exit code 7, no signal
    assert_eq!(exit_code_for(status), 7);
}

#[test]
fn exit_code_signal_uses_128_plus_signum() {
    let status = killed(15); // SIGTERM with no core dump
    assert_eq!(exit_code_for(status), 128 + 15);
}

#[test]
fn exit_code_without_code_or_signal_is_one() {
    assert_eq!(exit_code_for(ChildStatus { code: None, signal: None }), 1);
}

#[test]
fn exit_codes_outside_a_byte_become_one() {
    assert_eq!(clamp_exit_code(0), 0);
    assert_eq!(clamp_exit_code(255), 255);
    assert_eq!(clamp_exit_code(256), 1);
    assert_eq!(clamp_exit_code(-1), 1);
}

#[test]
fn a_run_exits_as_its_child() {
    let outcome = RunOutcome { record: BenchmarkRecord::default(), status: exited(42) };
    assert_eq!(outcome.exit_code(), 42);
    assert_eq!(run_exit_code(&Some(outcome)), 42);
    let outcome = RunOutcome { record: BenchmarkRecord::default(), status: killed(9) };
    assert_eq!(run_exit_code(&Some(outcome)), 137);
    assert_eq!(run_exit_code(&None), 127);
}

fn options_with(out: &str, trace: Option<&str>, markdown: Option<&str>) -> RunOptions {
    RunOptions {
        interval_nanos: 100_000_000,
        output_path: out.to_string(),
        format: OutputFormat::Tsv,
        force_summary: false,
        trace_path: trace.map(|p| p.to_string()),
        markdown_path: markdown.map(|p| p.to_string()),
        schema_mode: SchemaMode::Full,
    }
}

#[test]
fn validate_output_paths_accepts_all_distinct() {
    let opts = options_with("/tmp/a.tsv", Some("/tmp/b.tsv"), Some("/tmp/c.md"));
    validate_output_paths(&opts).expect("distinct paths are fine");
}

#[test]
fn validate_output_paths_accepts_when_sidecars_absent() {
    let opts = options_with("/tmp/a.tsv", None, None);
    validate_output_paths(&opts).expect("single path can't collide with itself");
}

#[test]
fn validate_output_paths_rejects_out_equals_markdown() {
    let opts = options_with("/tmp/shared.tsv", None, Some("/tmp/shared.tsv"));
    let err = validate_output_paths(&opts).expect_err("must reject collision");
    assert_eq!(err.kind(), ErrorKind::InvalidInput);
    let msg = err.message();
    assert!(msg.contains("--out") && msg.contains("--export-markdown"), "msg: {msg}");
    assert!(msg.contains("/tmp/shared.tsv"), "msg: {msg}");
}

#[test]
fn validate_output_paths_rejects_trace_equals_markdown() {
    let opts = options_with("/tmp/agg.tsv", Some("/tmp/shared.tsv"), Some("/tmp/shared.tsv"));
    let err = validate_output_paths(&opts).expect_err("must reject collision");
    let msg = err.message();
    assert!(msg.contains("--trace") && msg.contains("--export-markdown"), "msg: {msg}");
}

#[test]
fn validate_output_paths_rejects_out_equals_trace() {
    let opts = options_with("/tmp/shared.tsv", Some("/tmp/shared.tsv"), None);
    let err = validate_output_paths(&opts).expect_err("must reject collision");
    let msg = err.message();
    assert!(msg.contains("--out") && msg.contains("--trace"), "msg: {msg}");
}

#[test]
fn the_first_collision_is_reported_in_full() {
    let opts = options_with("/tmp/x", Some("/tmp//x"), Some("/tmp/x"));
    let err = validate_output_paths(&opts).expect_err("must reject collision");
    assert_eq!(
        err.message(),
        "--out and --trace point to the same path (/tmp/x); each output flag must use a distinct path"
    );
}

#[test]
fn paths_are_compared_as_they_are_written() {
    assert!(same_path("a/b", "a//b"));
    assert!(same_path("a/b", "a/./b"));
    assert!(same_path("/", "//"));
    assert!(!same_path("./a", "a"));
    assert!(!same_path("a/", "a"));
    assert!(!same_path("/a", "a"));
    assert!(!same_path("a/../a", "a"));
    assert!(!same_path("a", "b"));
    assert_eq!(components("./a//b/./c/"), vec![".", "a", "b", "c"]);
    assert_eq!(components("/x"), vec!["x"]);
    assert!(components("").is_empty());
}

#[test]
fn sampler_options_follow_run_options() {
    let opts = options_with("out", Some("trace"), None);
    let sampler = opts.sampler_options();
    assert_eq!(sampler.interval_nanos, 100_000_000);
    assert_eq!(sampler.trace_path, Some("trace".to_string()));
    assert_eq!(options_with("out", None, None).sampler_options().trace_path, None);
}

fn context(load: f64, cache: f64) -> Context {
    Context {
        loadavg_1m: Some(Quantity::from_bits((load / 100.0).to_bits())),
        page_cache: Some(Quantity::from_bits(cache.to_bits())),
    }
}

/// Takes a run up to the writing of its record.
fn up_to_writing(options: &RunOptions, status: ChildStatus) -> Phase {
    let phase = Phase::begin(options).expect("distinct paths");
    assert!(matches!(phase, Phase::ReadStart));
    let phase = phase.advance(options, Report::Context(context(50.0, 10.0)));
    assert!(matches!(phase, Phase::Spawn { .. }));
    let phase = phase.advance(options, Report::Spawned(Some(77)));
    assert!(matches!(phase, Phase::InstallSignals { pid: 77, .. }));
    let phase = phase.advance(options, Report::SignalsInstalled(true));
    assert!(matches!(phase, Phase::StartSampler { pid: 77, .. }));
    let phase = phase.advance(options, Report::SamplerStarted);
    assert!(matches!(phase, Phase::AwaitChild { .. }));
    let phase = phase.advance(options, Report::Exited(Some(status)));
    assert!(matches!(phase, Phase::StopSampler { .. }));
    let record = BenchmarkRecord { peak_n_procs: 3, ..Default::default() };
    let phase = phase.advance(options, Report::Sampled(record));
    assert!(matches!(phase, Phase::ReadEnd { .. }));
    let phase = phase.advance(options, Report::Context(context(75.0, 20.0)));
    assert!(matches!(phase, Phase::ReleaseSignals { .. }));
    let phase = phase.advance(options, Report::SignalsReleased);
    assert!(matches!(phase, Phase::WriteRecord { .. }));
    phase
}

#[test]
fn a_run_ends_with_its_record_in_context_even_if_the_child_failed() {
    let options = options_with("out", None, None);
    let phase = up_to_writing(&options, exited(42));
    let phase = phase.advance(&options, Report::Written(true));
    assert!(matches!(phase, Phase::AskTerminal { .. }));
    match phase.advance(&options, Report::Terminal(false)) {
        Phase::Done { outcome } => {
            assert_eq!(outcome.exit_code(), 42);
            assert_eq!(outcome.record.peak_n_procs, 3);
            assert_eq!(outcome.record.loadavg_1m_start.unwrap().to_fixed(2), "0.50");
            assert_eq!(outcome.record.loadavg_1m_end.unwrap().to_fixed(2), "0.75");
            assert_eq!(outcome.record.page_cache_start.unwrap().to_fixed(0), "10");
            assert_eq!(outcome.record.page_cache_end.unwrap().to_fixed(0), "20");
        }
        other => panic!("unexpected {:?}", other),
    }
}

#[test]
fn the_summary_is_printed_on_request_or_on_a_terminal() {
    let mut options = options_with("out", None, None);
    let asked = up_to_writing(&options, exited(0)).advance(&options, Report::Written(true));
    let shown = asked.advance(&options, Report::Terminal(true));
    assert!(matches!(shown, Phase::PrintSummary { .. }));
    assert!(matches!(shown.advance(&options, Report::Printed), Phase::Done { .. }));
    options.force_summary = true;
    let forced = up_to_writing(&options, exited(0)).advance(&options, Report::Written(true));
    assert!(matches!(forced, Phase::PrintSummary { .. }));
    let record = BenchmarkRecord::default();
    assert_eq!(summary_message(&record), format!("tricorder: {}", record.summary_line()));
}

#[test]
fn markdown_is_written_behind_the_record_where_it_is_asked_for() {
    let options = options_with("out", None, Some("table.md"));
    let phase = up_to_writing(&options, killed(15)).advance(&options, Report::Written(true));
    assert!(matches!(phase, Phase::WriteMarkdown { .. }));
    assert!(matches!(
        phase.advance(&options, Report::Written(true)),
        Phase::AskTerminal { .. }
    ));
    assert!(matches!(phase.advance(&options, Report::Written(false)), Phase::Failed));
}

#[test]
fn nothing_begins_where_outputs_collide_and_failures_end_the_run() {
    assert!(Phase::begin(&options_with("same", Some("same"), None)).is_err());
    let options = options_with("out", None, None);
    let phase = Phase::begin(&options).unwrap().advance(&options, Report::Context(context(1.0, 1.0)));
    assert!(matches!(phase.advance(&options, Report::Spawned(None)), Phase::Failed));
    let phase = phase.advance(&options, Report::Spawned(Some(5)));
    assert!(matches!(phase.advance(&options, Report::SignalsInstalled(false)), Phase::Failed));
    let phase = phase.advance(&options, Report::SignalsInstalled(true));
    let phase = phase.advance(&options, Report::SamplerStarted);
    assert!(matches!(phase.advance(&options, Report::Exited(None)), Phase::Failed));
    let phase = up_to_writing(&options, exited(0));
    assert!(matches!(phase.advance(&options, Report::Written(false)), Phase::Failed));
}

#[test]
fn signals_go_to_the_whole_group() {
    assert_eq!(group_target(1234), -1234);
}

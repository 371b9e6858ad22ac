//! What holds of every run: which outputs are refused, which step follows which, what the outcome
//! holds, and what the run exits with.

use vstd::prelude::*;

use super::exit::{exit_byte, ChildStatus, RunOutcome, RUN_FAILED};
use super::options::{all_distinct, collide, collision_text, none_before, RunOptions};
use super::phases::{Context, Phase, Report};
use crate::path::is_same_path;
use crate::record::BenchmarkRecord;

verus! {

/// A run is refused exactly where two of the paths that it was given are the same: the record and
/// the trace, the record and the Markdown table, or the trace and the Markdown table. A path that
/// was not given collides with none.
pub proof fn lemma_outputs_must_differ(options: RunOptions)
    ensures
        all_distinct(options.outputs()) <==> {
            &&& options.trace_path matches Some(t) ==> !is_same_path(options.output_path@, t@)
            &&& options.markdown_path matches Some(m) ==> !is_same_path(options.output_path@, m@)
            &&& options.trace_path matches Some(t) ==> (options.markdown_path matches Some(m)
                ==> !is_same_path(t@, m@))
        },
{
    let outputs = options.outputs();
    let out = options.output_path@;
    assert(outputs[0] == ("--out"@, out));
    if all_distinct(outputs) {
        assert(!collide(outputs, 0, 1));
        assert(!collide(outputs, 0, 2));
        assert(!collide(outputs, 1, 2));
    } else {
        let (i, j) = choose|i: int, j: int| #[trigger] collide(outputs, i, j);
        assert(collide(outputs, i, j));
    }
}

/// What the user is told names the two flags of the first collision, in the order record, trace,
/// Markdown table, and the path of the first of them.
pub proof fn lemma_collision_names_both_flags(options: RunOptions, i: int, j: int)
    requires
        collide(options.outputs(), i, j),
        none_before(options.outputs(), i, j),
    ensures
        ({
            let told = collision_text(
                options.outputs()[i].0,
                options.outputs()[j].0,
                options.outputs()[i].1,
            );
            let out = options.output_path@;
            let tail = "); each output flag must use a distinct path"@;
            if options.trace_path is Some && is_same_path(out, options.trace_path->0@) {
                told == "--out"@ + " and "@ + "--trace"@ + " point to the same path ("@ + out + tail
            } else if options.markdown_path is Some && is_same_path(
                out,
                options.markdown_path->0@,
            ) {
                told == "--out"@ + " and "@ + "--export-markdown"@ + " point to the same path ("@
                    + out + tail
            } else {
                told == "--trace"@ + " and "@ + "--export-markdown"@ + " point to the same path ("@
                    + options.trace_path->0@ + tail
            }
        }),
{
    let outputs = options.outputs();
    assert(outputs[0] == ("--out"@, options.output_path@));
    if options.trace_path is Some && is_same_path(
        options.output_path@,
        options.trace_path->0@,
    ) {
        assert(collide(outputs, 0, 1));
    } else if options.markdown_path is Some && is_same_path(
        options.output_path@,
        options.markdown_path->0@,
    ) {
        if options.trace_path is Some {
            assert(collide(outputs, 0, 2));
        } else {
            assert(collide(outputs, 0, 1));
        }
    }
}

/// The exit code is the child's own where it exited by itself, 128 and the signal's number where a
/// signal killed it, and 1 where neither is known. As a byte it is itself where it fits and 1 where
/// it does not. A run without an outcome exits with 127.
pub proof fn lemma_exit_codes(status: ChildStatus, code: int)
    ensures
        status.code matches Some(c) ==> status.as_exit_code() == c,
        status.code is None && status.signal is Some ==> status.as_exit_code() == 128
            + status.signal->0,
        status.code is None && status.signal is None ==> status.as_exit_code() == 1,
        status.code is Some ==> status.is_representable(),
        status.signal is None ==> status.is_representable(),
        status.signal matches Some(s) ==> (s <= 0x7fff_ff7f ==> status.is_representable()),
        0 <= code < 256 ==> exit_byte(code) == code,
        code < 0 || code >= 256 ==> exit_byte(code) == 1,
        RUN_FAILED == 127,
{
}

/// A run whose steps all succeed reads the state of the system, spawns the child, forwards signals
/// to it, samples the tree below it, waits for it, takes the record, reads the state of the system
/// again, releases the signals and writes the record, in this order, whatever the child's status.
/// The outcome holds that status and that record, with the two states of the system put in: the
/// first at the start, the second at the end.
pub proof fn lemma_steps_up_to_the_record(
    options: RunOptions,
    start: Context,
    pid: i32,
    status: ChildStatus,
    record: BenchmarkRecord,
    end: Context,
)
    ensures
        Phase::ReadStart.after(options, Report::Context(start)) == (Phase::Spawn { start }),
        (Phase::Spawn { start }).after(options, Report::Spawned(Some(pid)))
            == (Phase::InstallSignals { start, pid }),
        (Phase::InstallSignals { start, pid }).after(options, Report::SignalsInstalled(true))
            == (Phase::StartSampler { start, pid }),
        (Phase::StartSampler { start, pid }).after(options, Report::SamplerStarted)
            == (Phase::AwaitChild { start }),
        (Phase::AwaitChild { start }).after(options, Report::Exited(Some(status)))
            == (Phase::StopSampler { start, status }),
        (Phase::StopSampler { start, status }).after(options, Report::Sampled(record))
            == (Phase::ReadEnd { start, outcome: RunOutcome { record, status } }),
        ({
            let next = (Phase::ReadEnd { start, outcome: RunOutcome { record, status } }).after(
                options,
                Report::Context(end),
            );
            let outcome = next->ReleaseSignals_outcome;
            let shown = outcome.record;
            &&& next is ReleaseSignals
            &&& next.after(options, Report::SignalsReleased) == (Phase::WriteRecord { outcome })
            &&& outcome.status == status
            &&& shown.loadavg_1m_start == start.loadavg_1m
            &&& shown.loadavg_1m_end == end.loadavg_1m
            &&& shown.page_cache_start == start.page_cache
            &&& shown.page_cache_end == end.page_cache
            &&& shown.running_time == record.running_time
            &&& shown.max_rss == record.max_rss
            &&& shown.max_vms == record.max_vms
            &&& shown.max_uss == record.max_uss
            &&& shown.max_pss == record.max_pss
            &&& shown.io_in == record.io_in
            &&& shown.io_out == record.io_out
            &&& shown.mean_load == record.mean_load
            &&& shown.cpu_time == record.cpu_time
            &&& shown.major_page_faults == record.major_page_faults
            &&& shown.minor_page_faults == record.minor_page_faults
            &&& shown.voluntary_ctx_switches == record.voluntary_ctx_switches
            &&& shown.involuntary_ctx_switches == record.involuntary_ctx_switches
            &&& shown.peak_n_threads == record.peak_n_threads
            &&& shown.peak_n_procs == record.peak_n_procs
            &&& shown.data_collected == record.data_collected
        }),
{
}

/// Behind the record the Markdown table is written exactly where a path was given for it. The
/// summary is printed without asking where it was asked for, else where standard error is a
/// terminal, and nowhere else. The outcome stays as it is.
pub proof fn lemma_steps_behind_the_record(options: RunOptions, outcome: RunOutcome)
    ensures
        ({
            let next = (Phase::WriteRecord { outcome }).after(options, Report::Written(true));
            let behind = if options.markdown_path is Some {
                next.after(options, Report::Written(true))
            } else {
                next
            };
            &&& options.markdown_path is Some ==> next == (Phase::WriteMarkdown { outcome })
            &&& options.force_summary ==> behind == (Phase::PrintSummary { outcome })
            &&& !options.force_summary ==> behind == (Phase::AskTerminal { outcome })
        }),
        (Phase::AskTerminal { outcome }).after(options, Report::Terminal(true))
            == (Phase::PrintSummary { outcome }),
        (Phase::AskTerminal { outcome }).after(options, Report::Terminal(false)) == (Phase::Done {
            outcome,
        }),
        (Phase::PrintSummary { outcome }).after(options, Report::Printed) == (Phase::Done {
            outcome,
        }),
{
}

/// Every step but the last takes what can come of it, good or bad, and nothing else.
pub proof fn lemma_steps_take_their_reports(phase: Phase, report: Report)
    ensures
        phase is ReadStart || phase is ReadEnd ==> (report.answers(phase) <==> report is Context),
        phase is Spawn ==> (report.answers(phase) <==> report is Spawned),
        phase is InstallSignals ==> (report.answers(phase) <==> report is SignalsInstalled),
        phase is StartSampler ==> (report.answers(phase) <==> report is SamplerStarted),
        phase is AwaitChild ==> (report.answers(phase) <==> report is Exited),
        phase is StopSampler ==> (report.answers(phase) <==> report is Sampled),
        phase is ReleaseSignals ==> (report.answers(phase) <==> report is SignalsReleased),
        phase is WriteRecord || phase is WriteMarkdown ==> (report.answers(phase) <==> report is Written),
        phase is AskTerminal ==> (report.answers(phase) <==> report is Terminal),
        phase is PrintSummary ==> (report.answers(phase) <==> report is Printed),
        phase is Done || phase is Failed ==> !report.answers(phase),
{
}

} // verus!

//! The steps of a run, one after the other: what to do next, given what came of the step before.

use vstd::prelude::*;
use vstd::string::StringExecFns;

use super::exit::{ChildStatus, RunOutcome};
use super::options::{
    all_distinct, collide, collision_text, none_before, validate_output_paths, ErrorKind, RunError,
    RunOptions,
};
use crate::quantity::Quantity;
use crate::record::BenchmarkRecord;

verus! {

/// The state of the system around a run, at one moment.
#[derive(Debug, Clone, Copy)]
pub struct Context {
    /// The one-minute load average.
    pub loadavg_1m: Option<Quantity>,
    /// The page cache in MiB.
    pub page_cache: Option<Quantity>,
}

/// What a run does next.
#[derive(Debug, Clone, Copy)]
pub enum Phase {
    /// Read the state of the system before anything is spawned.
    ReadStart,
    /// Spawn the child in a process group of its own.
    Spawn { start: Context },
    /// Forward signals to the process group of the child `pid`.
    InstallSignals { start: Context, pid: i32 },
    /// Start sampling the process tree below `pid`.
    StartSampler { start: Context, pid: i32 },
    /// Wait for the child to exit.
    AwaitChild { start: Context },
    /// Stop the sampler and take its record.
    StopSampler { start: Context, status: ChildStatus },
    /// Read the state of the system once more.
    ReadEnd { start: Context, outcome: RunOutcome },
    /// Stop forwarding signals.
    ReleaseSignals { outcome: RunOutcome },
    /// Write the record to the output file.
    WriteRecord { outcome: RunOutcome },
    /// Write the record to the Markdown file.
    WriteMarkdown { outcome: RunOutcome },
    /// Find out whether standard error is a terminal.
    AskTerminal { outcome: RunOutcome },
    /// Print the one-line summary.
    PrintSummary { outcome: RunOutcome },
    /// Return the outcome.
    Done { outcome: RunOutcome },
    /// Return the error that came up.
    Failed,
}

/// What came of a step.
#[derive(Debug, Clone, Copy)]
pub enum Report {
    /// The state of the system.
    Context(Context),
    /// The process id of the child, or `None` where it could not be spawned.
    Spawned(Option<i32>),
    /// Whether signals are being forwarded.
    SignalsInstalled(bool),
    /// The sampler is running.
    SamplerStarted,
    /// How the child ended, or `None` where it could not be waited for.
    Exited(Option<ChildStatus>),
    /// The record of the sampler.
    Sampled(BenchmarkRecord),
    /// Signals are no longer forwarded.
    SignalsReleased,
    /// Whether the file was written.
    Written(bool),
    /// Whether standard error is a terminal.
    Terminal(bool),
    /// The summary is printed.
    Printed,
}

/// `record` with the state of the system at both ends of the run.
pub open spec fn in_context(
    record: BenchmarkRecord,
    start: Context,
    end: Context,
) -> BenchmarkRecord {
    BenchmarkRecord {
        loadavg_1m_start: start.loadavg_1m,
        loadavg_1m_end: end.loadavg_1m,
        page_cache_start: start.page_cache,
        page_cache_end: end.page_cache,
        ..record
    }
}

impl Report {
    /// This report is one that `phase` waits for.
    pub open spec fn answers(self, phase: Phase) -> bool {
        match phase {
            Phase::ReadStart => self is Context,
            Phase::Spawn { .. } => self is Spawned,
            Phase::InstallSignals { .. } => self is SignalsInstalled,
            Phase::StartSampler { .. } => self is SamplerStarted,
            Phase::AwaitChild { .. } => self is Exited,
            Phase::StopSampler { .. } => self is Sampled,
            Phase::ReadEnd { .. } => self is Context,
            Phase::ReleaseSignals { .. } => self is SignalsReleased,
            Phase::WriteRecord { .. } => self is Written,
            Phase::WriteMarkdown { .. } => self is Written,
            Phase::AskTerminal { .. } => self is Terminal,
            Phase::PrintSummary { .. } => self is Printed,
            Phase::Done { .. } => false,
            Phase::Failed => false,
        }
    }
}

/// Once the files are written: the summary is printed without asking where it was asked for.
pub open spec fn after_writing(options: RunOptions, outcome: RunOutcome) -> Phase {
    if options.force_summary {
        Phase::PrintSummary { outcome }
    } else {
        Phase::AskTerminal { outcome }
    }
}

impl Phase {
    /// The phase behind this one.
    pub open spec fn after(self, options: RunOptions, report: Report) -> Phase {
        match (self, report) {
            (Phase::ReadStart, Report::Context(start)) => Phase::Spawn { start },
            (Phase::Spawn { start }, Report::Spawned(Some(pid))) => Phase::InstallSignals {
                start,
                pid,
            },
            (Phase::InstallSignals { start, pid }, Report::SignalsInstalled(true)) => {
                Phase::StartSampler { start, pid }
            },
            (Phase::StartSampler { start, .. }, Report::SamplerStarted) => Phase::AwaitChild {
                start,
            },
            (Phase::AwaitChild { start }, Report::Exited(Some(status))) => Phase::StopSampler {
                start,
                status,
            },
            (Phase::StopSampler { start, status }, Report::Sampled(record)) => Phase::ReadEnd {
                start,
                outcome: RunOutcome { record, status },
            },
            (Phase::ReadEnd { start, outcome }, Report::Context(end)) => Phase::ReleaseSignals {
                outcome: RunOutcome {
                    record: in_context(outcome.record, start, end),
                    status: outcome.status,
                },
            },
            (Phase::ReleaseSignals { outcome }, Report::SignalsReleased) => Phase::WriteRecord {
                outcome,
            },
            (Phase::WriteRecord { outcome }, Report::Written(true)) => {
                if options.markdown_path is Some {
                    Phase::WriteMarkdown { outcome }
                } else {
                    after_writing(options, outcome)
                }
            },
            (Phase::WriteMarkdown { outcome }, Report::Written(true)) => after_writing(
                options,
                outcome,
            ),
            (Phase::AskTerminal { outcome }, Report::Terminal(is_terminal)) => {
                if is_terminal {
                    Phase::PrintSummary { outcome }
                } else {
                    Phase::Done { outcome }
                }
            },
            (Phase::PrintSummary { outcome }, Report::Printed) => Phase::Done { outcome },
            _ => Phase::Failed,
        }
    }

    /// Begins a run, unless two of its outputs would go to the same path.
    pub fn begin(options: &RunOptions) -> (r: Result<Phase, RunError>)
        ensures
            r is Ok <==> all_distinct(options.outputs()),
            r matches Ok(phase) ==> phase is ReadStart,
            r matches Err(e) ==> exists|i: int, j: int| #[trigger]
                collide(options.outputs(), i, j) && none_before(options.outputs(), i, j)
                    && e.reason() == ErrorKind::InvalidInput && e.text() == collision_text(
                    options.outputs()[i].0,
                    options.outputs()[j].0,
                    options.outputs()[i].1,
                ),
    {
        match validate_output_paths(options) {
            Ok(()) => Ok(Phase::ReadStart),
            Err(e) => Err(e),
        }
    }

    /// Takes in what came of this step, and says what to do next.
    pub fn advance(self, options: &RunOptions, report: Report) -> (r: Phase)
        requires
            report.answers(self),
        ensures
            r == self.after(*options, report),
    {
        match (self, report) {
            (Phase::ReadStart, Report::Context(start)) => Phase::Spawn { start },
            (Phase::Spawn { start }, Report::Spawned(Some(pid))) => Phase::InstallSignals {
                start,
                pid,
            },
            (Phase::InstallSignals { start, pid }, Report::SignalsInstalled(installed)) => {
                if installed {
                    Phase::StartSampler { start, pid }
                } else {
                    Phase::Failed
                }
            },
            (Phase::StartSampler { start, .. }, Report::SamplerStarted) => Phase::AwaitChild {
                start,
            },
            (Phase::AwaitChild { start }, Report::Exited(Some(status))) => Phase::StopSampler {
                start,
                status,
            },
            (Phase::StopSampler { start, status }, Report::Sampled(record)) => Phase::ReadEnd {
                start,
                outcome: RunOutcome { record, status },
            },
            (Phase::ReadEnd { start, outcome }, Report::Context(end)) => {
                let mut record: BenchmarkRecord = outcome.record;
                record.loadavg_1m_start = start.loadavg_1m;
                record.loadavg_1m_end = end.loadavg_1m;
                record.page_cache_start = start.page_cache;
                record.page_cache_end = end.page_cache;
                Phase::ReleaseSignals { outcome: RunOutcome { record, status: outcome.status } }
            },
            (Phase::ReleaseSignals { outcome }, Report::SignalsReleased) => Phase::WriteRecord {
                outcome,
            },
            (Phase::WriteRecord { outcome }, Report::Written(written)) => {
                if !written {
                    Phase::Failed
                } else if options.markdown_path.is_some() {
                    Phase::WriteMarkdown { outcome }
                } else if options.force_summary {
                    Phase::PrintSummary { outcome }
                } else {
                    Phase::AskTerminal { outcome }
                }
            },
            (Phase::WriteMarkdown { outcome }, Report::Written(written)) => {
                if !written {
                    Phase::Failed
                } else if options.force_summary {
                    Phase::PrintSummary { outcome }
                } else {
                    Phase::AskTerminal { outcome }
                }
            },
            (Phase::AskTerminal { outcome }, Report::Terminal(is_terminal)) => {
                if is_terminal {
                    Phase::PrintSummary { outcome }
                } else {
                    Phase::Done { outcome }
                }
            },
            (Phase::PrintSummary { outcome }, Report::Printed) => Phase::Done { outcome },
            _ => Phase::Failed,
        }
    }
}

/// The line that is printed after a run.
pub fn summary_message(record: &BenchmarkRecord) -> (out: String)
    ensures
        out@ == "tricorder: "@ + record.summary(),
{
    let mut out: String = "tricorder: ".to_owned();
    out.append(record.summary_line().as_str());
    out
}

/// The phase of a run after a history of reports.
pub open spec fn phase_after(options: RunOptions, reports: Seq<Report>) -> Phase
    decreases reports.len(),
{
    if reports.len() == 0 {
        Phase::ReadStart
    } else {
        phase_after(options, reports.drop_last()).after(options, reports.last())
    }
}

/// Each report of a history answers the phase before it.
pub open spec fn is_history(options: RunOptions, reports: Seq<Report>) -> bool
    decreases reports.len(),
{
    reports.len() == 0 || (is_history(options, reports.drop_last()) && reports.last().answers(
        phase_after(options, reports.drop_last()),
    ))
}

/// The first reports of a history, up to the one that says how the child ended: the state of the
/// system was read before the child was spawned, and signals were forwarded before the sampler
/// started.
pub open spec fn child_was_run(reports: Seq<Report>, start: Context, status: ChildStatus) -> bool {
    &&& reports.len() >= 5
    &&& reports[0] == Report::Context(start)
    &&& reports[1] matches Report::Spawned(Some(_))
    &&& reports[2] == Report::SignalsInstalled(true)
    &&& reports[3] == Report::SamplerStarted
    &&& reports[4] == Report::Exited(Some(status))
}

/// The child was run, its record was taken and put into context, and then signals were released.
pub open spec fn record_was_taken(reports: Seq<Report>, outcome: RunOutcome) -> bool {
    &&& reports.len() >= 7
    &&& exists|start: Context, record: BenchmarkRecord, end: Context|
        {
            &&& #[trigger] child_was_run(reports, start, outcome.status)
            &&& reports[5] == Report::Sampled(record)
            &&& reports[6] == Report::Context(end)
            &&& outcome.record == #[trigger] in_context(record, start, end)
        }
}

/// What the history of a run looks like when it has come to `phase`.
spec fn has_come_to(options: RunOptions, reports: Seq<Report>, phase: Phase) -> bool {
    match phase {
        Phase::ReadStart => reports.len() == 0,
        Phase::Spawn { start } => reports.len() == 1 && reports[0] == Report::Context(start),
        Phase::InstallSignals { start, pid } => reports.len() == 2 && reports[0]
            == Report::Context(start) && reports[1] == Report::Spawned(Some(pid)),
        Phase::StartSampler { start, pid } => reports.len() == 3 && reports[0] == Report::Context(
            start,
        ) && reports[1] == Report::Spawned(Some(pid)) && reports[2] == Report::SignalsInstalled(
            true,
        ),
        Phase::AwaitChild { start } => {
            &&& reports.len() == 4
            &&& reports[0] == Report::Context(start)
            &&& reports[1] matches Report::Spawned(Some(_))
            &&& reports[2] == Report::SignalsInstalled(true)
            &&& reports[3] == Report::SamplerStarted
        },
        Phase::StopSampler { start, status } => reports.len() == 5 && child_was_run(
            reports,
            start,
            status,
        ),
        Phase::ReadEnd { start, outcome } => reports.len() == 6 && child_was_run(
            reports,
            start,
            outcome.status,
        ) && reports[5] == Report::Sampled(outcome.record),
        Phase::ReleaseSignals { outcome } => reports.len() == 7 && record_was_taken(
            reports,
            outcome,
        ),
        Phase::WriteRecord { outcome } => reports.len() == 8 && record_was_taken(reports, outcome)
            && reports[7] == Report::SignalsReleased,
        Phase::WriteMarkdown { outcome } => reports.len() == 9 && options.markdown_path is Some
            && files_written(options, reports.push(Report::Written(true)), outcome),
        Phase::AskTerminal { outcome } => !options.force_summary && files_written(
            options,
            reports,
            outcome,
        ),
        Phase::PrintSummary { outcome } => files_written(options, reports, outcome) && (
        options.force_summary || reports.last() == Report::Terminal(true)),
        Phase::Done { outcome } => finished(options, reports, outcome),
        Phase::Failed => true,
    }
}

/// The record was taken and every file that was asked for was written from it.
pub open spec fn files_written(
    options: RunOptions,
    reports: Seq<Report>,
    outcome: RunOutcome,
) -> bool {
    &&& record_was_taken(reports, outcome)
    &&& reports.len() >= 9
    &&& reports[7] == Report::SignalsReleased
    &&& reports[8] == Report::Written(true)
    &&& options.markdown_path is Some ==> reports.len() >= 10 && reports[9] == Report::Written(
        true,
    )
}

/// A run that has finished: the files are written, and the summary is printed where it was asked
/// for or where standard error is a terminal, and nowhere else.
pub open spec fn finished(options: RunOptions, reports: Seq<Report>, outcome: RunOutcome) -> bool {
    &&& files_written(options, reports, outcome)
    &&& reports.last() == Report::Printed <==> options.force_summary || reports[reports.len() - 2]
        == Report::Terminal(true)
    &&& reports.last() == Report::Printed || reports.last() == Report::Terminal(false)
}

/// More reports do not undo what was read of the first ones.
proof fn lemma_taken_stays(reports: Seq<Report>, more: Report, outcome: RunOutcome)
    requires
        record_was_taken(reports, outcome),
    ensures
        record_was_taken(reports.push(more), outcome),
{
    let longer = reports.push(more);
    let (start, record, end) = choose|start: Context, record: BenchmarkRecord, end: Context|
        {
            &&& #[trigger] child_was_run(reports, start, outcome.status)
            &&& reports[5] == Report::Sampled(record)
            &&& reports[6] == Report::Context(end)
            &&& outcome.record == #[trigger] in_context(record, start, end)
        };
    assert(child_was_run(longer, start, outcome.status));
    assert(outcome.record == in_context(record, start, end));
}

proof fn lemma_history_shape(options: RunOptions, reports: Seq<Report>)
    requires
        is_history(options, reports),
    ensures
        has_come_to(options, reports, phase_after(options, reports)),
    decreases reports.len(),
{
    if reports.len() > 0 {
        let front = reports.drop_last();
        let last = reports.last();
        lemma_history_shape(options, front);
        assert(reports =~= front.push(last));
        let before = phase_after(options, front);
        match before {
            Phase::ReadEnd { start, outcome } => {
                if let Report::Context(end) = last {
                    assert(child_was_run(reports, start, outcome.status));
                    let record = in_context(outcome.record, start, end);
                    assert(record_was_taken(
                        reports,
                        RunOutcome { record, status: outcome.status },
                    ));
                }
            },
            Phase::ReleaseSignals { outcome } => {
                lemma_taken_stays(front, last, outcome);
            },
            Phase::WriteRecord { outcome } => {
                lemma_taken_stays(front, last, outcome);
                lemma_taken_stays(reports, Report::Written(true), outcome);
            },
            Phase::WriteMarkdown { outcome } => {},
            Phase::AskTerminal { outcome } => {
                lemma_taken_stays(front, last, outcome);
            },
            Phase::PrintSummary { outcome } => {
                lemma_taken_stays(front, last, outcome);
            },
            _ => {},
        }
    }
}

/// A run that comes to its end went through all its steps in order: the state of the system was
/// read before the child was spawned, signals were forwarded before the sampler started and until
/// the record was taken, the outcome holds the child's status and the sampler's record in its
/// context, and every file that was asked for was written from that record, whatever the child's
/// status.
pub proof fn lemma_finished_run(options: RunOptions, reports: Seq<Report>)
    requires
        is_history(options, reports),
        phase_after(options, reports) is Done,
    ensures
        finished(options, reports, phase_after(options, reports)->Done_outcome),
{
    lemma_history_shape(options, reports);
}

/// A child that failed is treated as one that succeeded: the run goes on to take the record and
/// write it, and only the outcome tells the two apart.
pub proof fn lemma_failed_child_is_recorded(
    options: RunOptions,
    start: Context,
    status: ChildStatus,
    record: BenchmarkRecord,
    end: Context,
)
    ensures
        ({
            let stopping = Phase::AwaitChild { start }.after(
                options,
                Report::Exited(Some(status)),
            );
            let releasing = stopping.after(options, Report::Sampled(record)).after(
                options,
                Report::Context(end),
            );
            releasing.after(options, Report::SignalsReleased) == Phase::WriteRecord {
                outcome: RunOutcome { record: in_context(record, start, end), status },
            }
        }),
{
}

/// A step that fails ends the run with its error: nothing is spawned after a failed spawn, no
/// Markdown is written where the record was not, and no summary is printed.
pub proof fn lemma_failure_ends_the_run(options: RunOptions, phase: Phase)
    ensures
        phase is Spawn ==> phase.after(options, Report::Spawned(None)) is Failed,
        phase is InstallSignals ==> phase.after(options, Report::SignalsInstalled(false)) is Failed,
        phase is AwaitChild ==> phase.after(options, Report::Exited(None)) is Failed,
        phase is WriteRecord ==> phase.after(options, Report::Written(false)) is Failed,
        phase is WriteMarkdown ==> phase.after(options, Report::Written(false)) is Failed,
        forall|report: Report| !#[trigger] report.answers(Phase::Failed),
{
}

} // verus!

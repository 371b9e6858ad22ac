//! The sampling loop, step by step: what to do next, given what came of the step before.

use vstd::prelude::*;

use super::laws::after_run;
use super::snapshot::ProcessSnapshot;
use super::state::{SamplerModel, SamplerState};
use super::trace_laws::after_traced_run;
use crate::quantity::Quantity;
use crate::record::{BenchmarkRecord, TickRecord};
use crate::text::joined;

verus! {

/// Where the loop stands.
#[derive(Debug, Clone, Copy, PartialEq, Eq, Structural)]
pub enum Stage {
    /// About to read the stop flag, before sleeping.
    Checking,
    /// About to sleep.
    Resting,
    /// About to read the stop flag, after sleeping.
    Rechecking,
    /// About to sample the process tree.
    Sampling,
    /// About to write a trace row.
    Writing,
    /// Stopped.
    Ended,
}

/// What the loop asks for.
#[derive(Debug)]
pub enum Request {
    /// Read whether the loop was asked to stop.
    ReadStopFlag,
    /// Sleep for the sampling interval.
    Sleep,
    /// Sample the process tree, and then read how long the sampler has been running.
    Sample,
    /// Write this row to the trace as a line of its own, and flush it.
    WriteTraceRow(String),
    /// Return the aggregate.
    Finish,
}

/// What came of a request.
#[derive(Debug)]
pub enum Outcome {
    /// The stop flag, as read.
    StopFlag(bool),
    /// The sampling interval has passed.
    Slept,
    /// The live processes of the tree, and the time since the sampler started.
    Sampled { snapshots: Vec<ProcessSnapshot>, elapsed_seconds: Quantity },
    /// Whether the trace row was written.
    RowWritten(bool),
}

/// The sampling loop between two steps.
#[derive(Debug)]
pub struct SamplerLoop {
    state: SamplerState,
    stage: Stage,
    tracing: bool,
}

/// What a [`SamplerLoop`] stands for.
#[verifier::ext_equal]
pub struct LoopModel {
    /// The running aggregate.
    pub aggregate: SamplerModel,
    /// Where the loop stands.
    pub stage: Stage,
    /// Whether rows go to a trace.
    pub tracing: bool,
}

impl Outcome {
    /// This outcome is one that `stage` waits for.
    pub open spec fn answers(self, stage: Stage) -> bool {
        match self {
            Outcome::StopFlag(_) => stage == Stage::Checking || stage == Stage::Rechecking,
            Outcome::Slept => stage == Stage::Resting,
            Outcome::Sampled { .. } => stage == Stage::Sampling,
            Outcome::RowWritten(_) => stage == Stage::Writing,
        }
    }
}

impl LoopModel {
    /// The loop before its first step.
    pub open spec fn start(tracing: bool) -> LoopModel {
        LoopModel { aggregate: SamplerModel::fresh(), stage: Stage::Checking, tracing }
    }

    /// The loop after `event`: a stop flag that is set ends it, each sample is absorbed, a row
    /// is due where there is a trace and the sample shows a process, and a row that could not
    /// be written ends the trace but not the loop.
    pub open spec fn after(self, event: Outcome) -> LoopModel {
        match event {
            Outcome::StopFlag(stop) => LoopModel {
                stage: if stop {
                    Stage::Ended
                } else if self.stage == Stage::Checking {
                    Stage::Resting
                } else {
                    Stage::Sampling
                },
                ..self
            },
            Outcome::Slept => LoopModel { stage: Stage::Rechecking, ..self },
            Outcome::Sampled { snapshots, elapsed_seconds } => {
                let absorbed = self.aggregate.absorbed(snapshots@);
                if self.tracing && snapshots@.len() > 0 {
                    LoopModel {
                        aggregate: absorbed.ticked(snapshots@),
                        stage: Stage::Writing,
                        tracing: true,
                    }
                } else {
                    LoopModel { aggregate: absorbed, stage: Stage::Checking, ..self }
                }
            },
            Outcome::RowWritten(written) => LoopModel {
                stage: Stage::Checking,
                tracing: self.tracing && written,
                ..self
            },
        }
    }
}

/// `row` is the trace row of `snapshots`, after `elapsed` seconds, over an aggregate that has
/// absorbed them.
pub open spec fn is_trace_row(
    row: Seq<char>,
    aggregate: SamplerModel,
    snapshots: Seq<ProcessSnapshot>,
    elapsed: Quantity,
) -> bool {
    exists|tick: TickRecord| #[trigger]
        aggregate.shows_tick(tick, snapshots, elapsed) && row == joined(tick.cells(), '\t')
}

/// What is asked for after `event`.
pub open spec fn asks(before: LoopModel, event: Outcome, request: Request) -> bool {
    match before.after(event).stage {
        Stage::Checking => request is ReadStopFlag,
        Stage::Resting => request is Sleep,
        Stage::Rechecking => request is ReadStopFlag,
        Stage::Sampling => request is Sample,
        Stage::Writing => {
            &&& request matches Request::WriteTraceRow(row)
            &&& event matches Outcome::Sampled { snapshots, elapsed_seconds }
            &&& is_trace_row(
                row@,
                before.aggregate.absorbed(snapshots@),
                snapshots@,
                elapsed_seconds,
            )
        },
        Stage::Ended => request is Finish,
    }
}

impl View for SamplerLoop {
    type V = LoopModel;

    closed spec fn view(&self) -> LoopModel {
        LoopModel { aggregate: self.state@, stage: self.stage, tracing: self.tracing }
    }
}

impl SamplerLoop {
    /// A loop that asks for the stop flag first. `tracing` says whether there is a trace to
    /// write rows to.
    pub fn start(tracing: bool) -> (r: (SamplerLoop, Request))
        ensures
            r.0@ == LoopModel::start(tracing),
            r.1 is ReadStopFlag,
    {
        let state: SamplerState = SamplerState::default();
        (SamplerLoop { state, stage: Stage::Checking, tracing }, Request::ReadStopFlag)
    }

    /// Takes in what came of the request before, and asks for the next step.
    pub fn advance(&mut self, event: Outcome) -> (r: Request)
        requires
            event.answers(old(self)@.stage),
        ensures
            final(self)@ == old(self)@.after(event),
            asks(old(self)@, event, r),
    {
        match event {
            Outcome::StopFlag(stop) => {
                if stop {
                    self.stage = Stage::Ended;
                    Request::Finish
                } else if self.stage == Stage::Checking {
                    self.stage = Stage::Resting;
                    Request::Sleep
                } else {
                    self.stage = Stage::Sampling;
                    Request::Sample
                }
            },
            Outcome::Slept => {
                self.stage = Stage::Rechecking;
                Request::ReadStopFlag
            },
            Outcome::Sampled { snapshots, elapsed_seconds } => {
                self.state.absorb(snapshots.as_slice());
                if self.tracing {
                    if let Some(tick) = self.state.tick(snapshots.as_slice(), elapsed_seconds) {
                        self.stage = Stage::Writing;
                        return Request::WriteTraceRow(tick.to_tsv_row());
                    }
                }
                self.stage = Stage::Checking;
                Request::ReadStopFlag
            },
            Outcome::RowWritten(written) => {
                if !written {
                    self.tracing = false;
                }
                self.stage = Stage::Checking;
                Request::ReadStopFlag
            },
        }
    }

    /// The aggregate of every sample taken.
    pub fn into_state(self) -> (s: SamplerState)
        ensures
            s@ == self@.aggregate,
    {
        self.state
    }
}

/// The record of a run of `running_time_seconds`; one without data where the sampler was lost and
/// left no aggregate behind.
pub fn final_record(state: Option<SamplerState>, running_time_seconds: Quantity) -> (r: BenchmarkRecord)
    ensures
        (match state {
            Some(s) => s@,
            None => SamplerModel::fresh(),
        }).shows_record(r, running_time_seconds),
{
    match state {
        Some(s) => s.into_record(running_time_seconds),
        None => SamplerState::default().into_record(running_time_seconds),
    }
}

/// The loop after a whole history of events.
pub open spec fn after_events(tracing: bool, events: Seq<Outcome>) -> LoopModel
    decreases events.len(),
{
    if events.len() == 0 {
        LoopModel::start(tracing)
    } else {
        after_events(tracing, events.drop_last()).after(events.last())
    }
}

/// Each event of a history answers the request before it.
pub open spec fn is_history(tracing: bool, events: Seq<Outcome>) -> bool
    decreases events.len(),
{
    events.len() == 0 || (is_history(tracing, events.drop_last()) && events.last().answers(
        after_events(tracing, events.drop_last()).stage,
    ))
}

/// The samples of a history, in order.
pub open spec fn samples(events: Seq<Outcome>) -> Seq<Seq<ProcessSnapshot>>
    decreases events.len(),
{
    if events.len() == 0 {
        Seq::empty()
    } else {
        let before = samples(events.drop_last());
        match events.last() {
            Outcome::Sampled { snapshots, .. } => before.push(snapshots@),
            _ => before,
        }
    }
}

/// Two aggregates that differ at most in what the next trace row compares with.
pub open spec fn same_record(a: SamplerModel, b: SamplerModel) -> bool {
    a == (SamplerModel { baselines: a.baselines, ..b })
}

/// Once it has ended, the loop takes no further event.
pub proof fn lemma_ended_takes_nothing(event: Outcome)
    ensures
        !event.answers(Stage::Ended),
{
}

/// A stop flag that is set ends the loop at once and leaves the aggregate alone: nothing is
/// sampled any more, not even where the flag was set during the sleep.
pub proof fn lemma_stop_ends_the_loop(model: LoopModel)
    ensures
        model.after(Outcome::StopFlag(true)).stage == Stage::Ended,
        model.after(Outcome::StopFlag(true)).aggregate == model.aggregate,
{
}

/// A trace that has failed, or that was never opened, stays off, and the run goes on: a row that
/// was not written changes neither the aggregate nor what is asked for next.
pub proof fn lemma_failed_trace_stays_off(model: LoopModel, event: Outcome)
    ensures
        !model.tracing ==> !model.after(event).tracing && model.after(event).stage
            != Stage::Writing,
        !model.after(Outcome::RowWritten(false)).tracing,
        model.after(Outcome::RowWritten(false)).aggregate == model.after(
            Outcome::RowWritten(true),
        ).aggregate,
        model.after(Outcome::RowWritten(false)).stage == model.after(Outcome::RowWritten(true)).stage,
{
}

/// A sample puts a row on the trace exactly where there is a trace and the sample shows a process,
/// and it is absorbed either way.
pub proof fn lemma_one_row_per_tick(
    model: LoopModel,
    snapshots: Vec<ProcessSnapshot>,
    elapsed_seconds: Quantity,
)
    ensures
        model.after(Outcome::Sampled { snapshots, elapsed_seconds }).stage == Stage::Writing
            <==> model.tracing && snapshots@.len() > 0,
        same_record(
            model.after(Outcome::Sampled { snapshots, elapsed_seconds }).aggregate,
            model.aggregate.absorbed(snapshots@),
        ),
{
}

/// Between two samples the loop sleeps and reads the stop flag twice; a sample is only taken
/// right after the flag was read as not set.
pub proof fn lemma_sample_follows_a_clear_flag(tracing: bool, events: Seq<Outcome>)
    requires
        is_history(tracing, events),
        after_events(tracing, events).stage == Stage::Sampling,
    ensures
        events.len() >= 3,
        events[events.len() - 1] == Outcome::StopFlag(false),
        events[events.len() - 2] == Outcome::Slept,
        events[events.len() - 3] == Outcome::StopFlag(false),
{
    reveal_with_fuel(is_history, 3);
    reveal_with_fuel(after_events, 4);
    let front = events.drop_last();
    assert(after_events(tracing, front).stage == Stage::Rechecking);
    let middle = front.drop_last();
    assert(front.last().answers(after_events(tracing, middle).stage));
    assert(after_events(tracing, middle).stage == Stage::Resting);
    assert(middle.last().answers(after_events(tracing, middle.drop_last()).stage));
}

/// The aggregate of the loop is that of its samples, whatever became of the trace.
pub proof fn lemma_loop_absorbs_its_samples(tracing: bool, events: Seq<Outcome>)
    ensures
        same_record(after_events(tracing, events).aggregate, after_run(samples(events))),
    decreases events.len(),
{
    if events.len() > 0 {
        let front = events.drop_last();
        lemma_loop_absorbs_its_samples(tracing, front);
        if let Outcome::Sampled { snapshots, .. } = events.last() {
            assert(samples(events).drop_last() =~= samples(front));
            assert(samples(events).last() == snapshots@);
        }
    }
}

/// While the trace is on, every sample is on it, so that the rows add up as those of
/// [`after_traced_run`] do.
pub proof fn lemma_loop_traces_its_samples(events: Seq<Outcome>)
    requires
        after_events(true, events).tracing,
    ensures
        after_events(true, events).aggregate == after_traced_run(samples(events)),
    decreases events.len(),
{
    if events.len() > 0 {
        let front = events.drop_last();
        lemma_loop_traces_its_samples(front);
        if let Outcome::Sampled { snapshots, .. } = events.last() {
            assert(samples(events).drop_last() =~= samples(front));
            assert(samples(events).last() == snapshots@);
            if snapshots@.len() == 0 {
                let before = after_traced_run(samples(front));
                assert(before.absorbed(snapshots@).ticked(snapshots@) =~= before);
            }
        }
    }
}

/// The loop goes round: it reads the flag, sleeps, reads the flag again and samples, and a sample
/// and its row lead back to the flag. Only a sample changes the aggregate, which absorbs it and
/// moves the baselines where it is on the trace, and only a row that was not written ends the trace.
pub proof fn lemma_loop_goes_round(
    tracing: bool,
    model: LoopModel,
    written: bool,
    snapshots: Vec<ProcessSnapshot>,
    elapsed_seconds: Quantity,
)
    ensures
        ({
            let next = model.after(Outcome::Sampled { snapshots, elapsed_seconds });
            &&& next.tracing == model.tracing
            &&& model.tracing && snapshots@.len() > 0 ==> next.stage == Stage::Writing
                && next.aggregate == model.aggregate.absorbed(snapshots@).ticked(snapshots@)
            &&& !model.tracing || snapshots@.len() == 0 ==> next.stage == Stage::Checking
                && next.aggregate == model.aggregate.absorbed(snapshots@)
        }),
        LoopModel::start(tracing).stage == Stage::Checking,
        LoopModel::start(tracing).tracing == tracing,
        LoopModel::start(tracing).aggregate == SamplerModel::fresh(),
        model.stage == Stage::Checking ==> model.after(Outcome::StopFlag(false)) == (LoopModel {
            stage: Stage::Resting,
            ..model
        }),
        model.stage == Stage::Rechecking ==> model.after(Outcome::StopFlag(false)) == (LoopModel {
            stage: Stage::Sampling,
            ..model
        }),
        model.after(Outcome::StopFlag(true)) == (LoopModel { stage: Stage::Ended, ..model }),
        model.after(Outcome::Slept) == (LoopModel { stage: Stage::Rechecking, ..model }),
        model.after(Outcome::RowWritten(written)).stage == Stage::Checking,
        model.after(Outcome::RowWritten(written)).aggregate == model.aggregate,
        model.after(Outcome::RowWritten(written)).tracing == (model.tracing && written),
{
}

/// Every stage but the last takes what can come of its request, and nothing else.
pub proof fn lemma_stages_take_their_outcomes(stage: Stage, event: Outcome)
    ensures
        stage == Stage::Checking || stage == Stage::Rechecking ==> (event.answers(stage)
            <==> event is StopFlag),
        stage == Stage::Resting ==> (event.answers(stage) <==> event is Slept),
        stage == Stage::Sampling ==> (event.answers(stage) <==> event is Sampled),
        stage == Stage::Writing ==> (event.answers(stage) <==> event is RowWritten),
        stage == Stage::Ended ==> !event.answers(stage),
{
}

/// What the loop asks for fits where it stands: the flag, a sleep, a sample, a row, or the end. A
/// row is the trace row of the sample that was just taken, over an aggregate that has absorbed it,
/// at the time that came with it, and shows as many processes as the sample.
pub proof fn lemma_loop_asks_for_its_stage(model: LoopModel, event: Outcome, request: Request)
    requires
        asks(model, event, request),
        event.answers(model.stage),
    ensures
        ({
            let stage = model.after(event).stage;
            &&& request is ReadStopFlag <==> stage == Stage::Checking || stage == Stage::Rechecking
            &&& request is Sleep <==> stage == Stage::Resting
            &&& request is Sample <==> stage == Stage::Sampling
            &&& request is WriteTraceRow <==> stage == Stage::Writing
            &&& request is Finish <==> stage == Stage::Ended
        }),
        request matches Request::WriteTraceRow(row) ==> (event matches Outcome::Sampled {
            snapshots,
            elapsed_seconds,
        } && exists|tick: TickRecord|
            {
                &&& #[trigger] model.aggregate.absorbed(snapshots@).shows_tick(
                    tick,
                    snapshots@,
                    elapsed_seconds,
                )
                &&& row@ == joined(tick.cells(), '\t')
                &&& tick.n_procs == snapshots@.len()
                &&& tick.elapsed == elapsed_seconds
            }),
{
    if let Request::WriteTraceRow(row) = request {
        if let Outcome::Sampled { snapshots, elapsed_seconds } = event {
            let tick = choose|tick: TickRecord| #[trigger]
                model.aggregate.absorbed(snapshots@).shows_tick(tick, snapshots@, elapsed_seconds)
                    && row@ == joined(tick.cells(), '\t');
            assert(model.aggregate.absorbed(snapshots@).shows_tick(
                tick,
                snapshots@,
                elapsed_seconds,
            ));
        }
    }
}

} // verus!

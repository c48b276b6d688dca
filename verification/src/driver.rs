//! The decision logic of the execution-and-progress engine: which display
//! mode a run uses, what each of the two concurrent tasks tells the
//! progress sink at every step, and how a finished or failed run is
//! recorded. The binary owns the actual child process, the two tasks and
//! the terminal sink, and drives them by these functions.

use vstd::prelude::*;
use crate::storage::{CommandKey, RecordedRun, Span, StoredDurations, upserted};

verus! {

/// The display mode of one run, chosen before the child is spawned and
/// never switched mid-run: a bar bounded by the prior duration, or an
/// indeterminate spinner when no prior duration is known.
#[derive(Clone, Copy, Debug, PartialEq, Eq, Structural)]
pub enum Mode {
    Bounded { target: Span },
    Unbounded,
}

/// One instruction to the progress sink. `Position` advances a bounded
/// bar (in milliseconds, and it may overrun the target), `Message` shows
/// the elapsed time of an unbounded run, `Line` prints one line of child
/// output above the display, and `Finish` stops the display.
#[derive(Debug)]
pub enum SinkOp {
    Position(u64),
    Message(Span),
    Line(String),
    Finish,
}

/// One observation of the drain task: a decoded line of child output, or
/// the end of the stream.
#[derive(Debug)]
pub enum OutputEvent {
    Line(String),
    End,
}

/// A span in whole milliseconds, clamped to the largest representable
/// value when it would not fit.
pub open spec fn spec_millis(s: Span) -> u64 {
    let total = s.secs * 1000 + s.nanos / 1_000_000;
    if total > u64::MAX {
        u64::MAX
    } else {
        total as u64
    }
}

/// Converts a span to whole milliseconds, clamped to the largest
/// representable value.
pub fn span_millis(s: Span) -> (r: u64)
    ensures
        r == spec_millis(s),
{
    let extra: u64 = (s.nanos / 1_000_000) as u64;
    let limit: u64 = u64::MAX / 1000;
    if s.secs > limit {
        u64::MAX
    } else {
        let base: u64 = s.secs * 1000;
        if base > u64::MAX - extra {
            u64::MAX
        } else {
            base + extra
        }
    }
}

/// The sample the sink receives for one elapsed-time reading: a bar
/// position in bounded mode, the elapsed time as a message in unbounded
/// mode.
pub open spec fn spec_sample(mode: Mode, elapsed: Span) -> SinkOp {
    match mode {
        Mode::Bounded { target: _ } => SinkOp::Position(spec_millis(elapsed)),
        Mode::Unbounded => SinkOp::Message(elapsed),
    }
}

/// Chooses the display mode: bounded by the prior duration when one is
/// known, unbounded otherwise.
pub fn plan_mode(prior: Option<Span>) -> (m: Mode)
    ensures
        m == (match prior {
            Some(d) => Mode::Bounded { target: d },
            None => Mode::Unbounded,
        }),
{
    match prior {
        Some(d) => Mode::Bounded { target: d },
        None => Mode::Unbounded,
    }
}

/// Builds the sample for one elapsed-time reading in the given mode.
pub fn sample_op(mode: &Mode, elapsed: Span) -> (op: SinkOp)
    ensures
        op == spec_sample(*mode, elapsed),
{
    match mode {
        Mode::Bounded { target: _ } => SinkOp::Position(span_millis(elapsed)),
        Mode::Unbounded => SinkOp::Message(elapsed),
    }
}

/// One step of the drain task: a decoded line is printed above the
/// display and followed by a fresh sample; the end of the stream finishes
/// the sink.
pub fn drain_ops(mode: &Mode, event: OutputEvent, elapsed: Span) -> (ops: Vec<SinkOp>)
    ensures
        ops@ == (match event {
            OutputEvent::Line(l) => seq![SinkOp::Line(l), spec_sample(*mode, elapsed)],
            OutputEvent::End => seq![SinkOp::Finish],
        }),
{
    let mut ops: Vec<SinkOp> = Vec::new();
    match event {
        OutputEvent::Line(l) => {
            ops.push(SinkOp::Line(l));
            ops.push(sample_op(mode, elapsed));
        },
        OutputEvent::End => {
            ops.push(SinkOp::Finish);
        },
    }
    ops
}

/// One step of the tick task: nothing once the sink has been finished
/// (the task stops), otherwise a fresh sample.
pub fn tick_op(mode: &Mode, finished: bool, elapsed: Span) -> (r: Option<SinkOp>)
    ensures
        r == (if finished {
            Option::<SinkOp>::None
        } else {
            Some(spec_sample(*mode, elapsed))
        }),
{
    if finished {
        None
    } else {
        Some(sample_op(mode, elapsed))
    }
}

/// Why a run produced no duration: the child process could not be started
/// at all, or a line of its output was not decodable text.
#[derive(Debug)]
pub enum RunError {
    SpawnFailed { command: String, detail: String },
    StreamDecodeFailure,
}

/// How one driven run ended: the child ran to completion in the measured
/// wall-clock time, the spawn itself failed, or a line of output could
/// not be decoded.
#[derive(Debug)]
pub enum RunOutcome {
    Completed { duration: Span },
    SpawnFailed { command: String, detail: String },
    DecodeFailed,
}

/// The orchestrator's closing step once the driver has returned: a
/// completed run is recorded in the store under its directory and
/// signature and its duration handed back; a failed spawn or an
/// undecodable stream records nothing, leaves the store exactly as it
/// was, and reports the matching error.
pub fn conclude(
    store: &mut StoredDurations,
    command: CommandKey,
    pwd: String,
    timestamp: String,
    outcome: RunOutcome,
) -> (r: Result<Span, RunError>)
    requires
        old(store).wf(),
    ensures
        final(store).wf(),
        (outcome matches RunOutcome::Completed { duration } ==> final(store)@ == upserted(
            old(store)@,
            pwd@,
            command@,
            duration,
            timestamp@,
        ) && r == Ok::<Span, RunError>(duration)),
        (outcome matches RunOutcome::SpawnFailed { command: c, detail: d } ==> final(store)@
            == old(store)@ && r == Err::<Span, RunError>(
            RunError::SpawnFailed { command: c, detail: d },
        )),
        (outcome matches RunOutcome::DecodeFailed ==> final(store)@ == old(store)@ && r == Err::<
            Span,
            RunError,
        >(RunError::StreamDecodeFailure)),
{
    match outcome {
        RunOutcome::Completed { duration } => {
            let recording = RecordedRun::here(command, pwd, duration, timestamp);
            store.add(recording);
            Ok(duration)
        },
        RunOutcome::SpawnFailed { command: c, detail: d } => Err(
            RunError::SpawnFailed { command: c, detail: d },
        ),
        RunOutcome::DecodeFailed => Err(RunError::StreamDecodeFailure),
    }
}

} // verus!

use rosemary::driver::{
    conclude, drain_ops, plan_mode, sample_op, span_millis, tick_op, Mode, OutputEvent, RunError,
    RunOutcome, SinkOp,
};
use rosemary::storage::{CommandKey, Span, StoredDurations};
use rosemary::CommandWithArgs;

fn args(list: &[&str]) -> Vec<String> {
    list.iter().map(|s| s.to_string()).collect()
}

fn span(secs: u64, nanos: u32) -> Span {
    Span { secs, nanos }
}

#[test]
fn span_millis_exact() {
    assert_eq!(span_millis(span(0, 0)), 0);
    assert_eq!(span_millis(span(1, 500_000_000)), 1500);
    // Sub-millisecond remainders are dropped.
    assert_eq!(span_millis(span(0, 999_999)), 0);
    assert_eq!(span_millis(span(12, 346_000_000)), 12_346);
}

#[test]
fn span_millis_saturates() {
    assert_eq!(span_millis(span(u64::MAX, 0)), u64::MAX);
    // Just over the largest second count whose milliseconds still fit.
    assert_eq!(span_millis(span(u64::MAX / 1000, 999_999_999)), u64::MAX);
}

#[test]
fn mode_follows_prior_duration() {
    assert_eq!(plan_mode(None), Mode::Unbounded);
    assert_eq!(plan_mode(Some(span(3, 0))), Mode::Bounded { target: span(3, 0) });
}

#[test]
fn samples_by_mode() {
    let bounded = Mode::Bounded { target: span(10, 0) };
    assert!(matches!(sample_op(&bounded, span(1, 500_000_000)), SinkOp::Position(1500)));
    assert!(matches!(sample_op(&Mode::Unbounded, span(2, 0)), SinkOp::Message(s) if s == span(2, 0)));
}

#[test]
fn drain_prints_line_then_samples() {
    let bounded = Mode::Bounded { target: span(10, 0) };
    let ops = drain_ops(&bounded, OutputEvent::Line("hello".to_string()), span(2, 0));
    assert_eq!(ops.len(), 2);
    assert!(matches!(&ops[0], SinkOp::Line(l) if l == "hello"));
    assert!(matches!(ops[1], SinkOp::Position(2000)));
}

#[test]
fn drain_finishes_on_stream_end() {
    let ops = drain_ops(&Mode::Unbounded, OutputEvent::End, span(2, 0));
    assert_eq!(ops.len(), 1);
    assert!(matches!(ops[0], SinkOp::Finish));
}

#[test]
fn tick_stops_once_finished() {
    let bounded = Mode::Bounded { target: span(10, 0) };
    assert!(tick_op(&bounded, true, span(1, 0)).is_none());
    assert!(matches!(tick_op(&bounded, false, span(1, 0)), Some(SinkOp::Position(1000))));
    assert!(matches!(
        tick_op(&Mode::Unbounded, false, span(1, 0)),
        Some(SinkOp::Message(s)) if s == span(1, 0)
    ));
}

#[test]
fn completed_run_is_recorded_and_found_again() {
    // Empty store, one run of `echo hi` in /tmp/x.
    let mut store = StoredDurations::default();
    let key = CommandKey::from(CommandWithArgs::new("echo", args(&["hi"])));
    assert_eq!(store.read_previous(&"/tmp/x".to_string(), &key), None);
    assert_eq!(plan_mode(store.read_previous(&"/tmp/x".to_string(), &key)), Mode::Unbounded);

    let measured = span(0, 120_000_000);
    let r = conclude(
        &mut store,
        CommandKey::from(CommandWithArgs::new("echo", args(&["hi"]))),
        "/tmp/x".to_string(),
        "2024-05-01T10:00:00Z".to_string(),
        RunOutcome::Completed { duration: measured },
    );
    assert!(matches!(r, Ok(d) if d == measured));

    let entries = store.entries();
    assert_eq!(entries.len(), 1);
    assert_eq!(entries[0].command.as_ref(), "echo hi");
    assert_eq!(entries[0].pwd, "/tmp/x");
    assert_eq!(entries[0].timestamp, "2024-05-01T10:00:00Z");

    // A second run of `echo hi` in /tmp/x now finds the entry and would
    // run with a bounded bar.
    let prior = store.read_previous(&"/tmp/x".to_string(), &key);
    assert_eq!(prior, Some(measured));
    assert_eq!(plan_mode(prior), Mode::Bounded { target: measured });
}

#[test]
fn failed_spawn_records_nothing() {
    let mut store = StoredDurations::default();
    let key = CommandKey::from(CommandWithArgs::new("cargo", args(&["build"])));
    conclude(
        &mut store,
        key,
        "/tmp/x".to_string(),
        "2024-05-01T10:00:00Z".to_string(),
        RunOutcome::Completed { duration: span(3, 0) },
    )
    .unwrap();

    // A nonexistent command fails to spawn: the error comes back and the
    // store is exactly as before.
    let r = conclude(
        &mut store,
        CommandKey::from(CommandWithArgs::new("no-such-binary", args(&[]))),
        "/tmp/x".to_string(),
        "2024-05-01T10:05:00Z".to_string(),
        RunOutcome::SpawnFailed {
            command: "no-such-binary".to_string(),
            detail: "entity not found".to_string(),
        },
    );
    assert!(matches!(
        &r,
        Err(RunError::SpawnFailed { command, detail })
            if command == "no-such-binary" && detail == "entity not found"
    ));

    let entries = store.entries();
    assert_eq!(entries.len(), 1);
    assert_eq!(entries[0].command.as_ref(), "cargo build");
    let build = CommandKey::from(CommandWithArgs::new("cargo", args(&["build"])));
    assert_eq!(store.read_previous(&"/tmp/x".to_string(), &build), Some(span(3, 0)));
}

#[test]
fn undecodable_output_records_nothing() {
    let mut store = StoredDurations::default();
    let r = conclude(
        &mut store,
        CommandKey::from(CommandWithArgs::new("cat", args(&["blob"]))),
        "/tmp/x".to_string(),
        "2024-05-01T10:00:00Z".to_string(),
        RunOutcome::DecodeFailed,
    );
    assert!(matches!(r, Err(RunError::StreamDecodeFailure)));
    assert_eq!(store.entries().len(), 0);
}

use rosemary::storage::{CommandKey, RecordedRun, Span, StorageError, StoredDurations};
use rosemary::CommandWithArgs;

fn args(list: &[&str]) -> Vec<String> {
    list.iter().map(|s| s.to_string()).collect()
}

fn span(secs: u64, nanos: u32) -> Span {
    Span { secs, nanos }
}

fn run(cmd: &str, cmd_args: &[&str], pwd: &str, duration: Span, timestamp: &str) -> RecordedRun {
    RecordedRun::here(
        CommandKey::from(CommandWithArgs::new(cmd, args(cmd_args))),
        pwd.to_string(),
        duration,
        timestamp.to_string(),
    )
}

#[test]
fn derive_command_key() {
    assert_eq!(
        "cargo build",
        CommandKey::from(CommandWithArgs::new("cargo", args(&["build"]))).as_ref()
    );
    assert_eq!(
        CommandKey::from(CommandWithArgs::new("cargo", args(&["build"]))),
        CommandKey::from(CommandWithArgs::new("cargo", args(&["build", "--verbose"]))),
    );
    assert_eq!(
        "cargo test",
        CommandKey::from(CommandWithArgs::new("cargo", args(&["test", "--", "--nocapture"])))
            .as_ref()
    );
}

#[test]
fn signature_edge_cases() {
    // A leading flag drops every argument.
    assert_eq!("ls", CommandKey::from(CommandWithArgs::new("ls", args(&["-la", "x"]))).as_ref());
    // No arguments at all: the signature is the bare command name.
    assert_eq!("make", CommandKey::from(CommandWithArgs::new("make", args(&[]))).as_ref());
    // Arguments after the first flag never come back, flags or not.
    assert_eq!(
        "git log",
        CommandKey::from(CommandWithArgs::new("git", args(&["log", "--oneline", "main"]))).as_ref()
    );
}

#[test]
fn lookup_miss_on_empty_store() {
    let store = StoredDurations::default();
    let key = CommandKey::from(CommandWithArgs::new("cargo", args(&["build"])));
    assert_eq!(store.read_previous(&"/tmp/x".to_string(), &key), None);
}

#[test]
fn lookup_miss_on_other_keys() {
    let mut store = StoredDurations::default();
    store.add(run("cargo", &["build"], "/tmp/x", span(3, 0), "2024-05-01T10:00:00Z"));
    let other_cmd = CommandKey::from(CommandWithArgs::new("cargo", args(&["test"])));
    let same_cmd = CommandKey::from(CommandWithArgs::new("cargo", args(&["build"])));
    // Same directory, signature never inserted.
    assert_eq!(store.read_previous(&"/tmp/x".to_string(), &other_cmd), None);
    // Same signature, directory never inserted.
    assert_eq!(store.read_previous(&"/tmp/y".to_string(), &same_cmd), None);
}

#[test]
fn lookup_hit() {
    let mut store = StoredDurations::default();
    store.add(run("cargo", &["build"], "/tmp/x", span(3, 250), "2024-05-01T10:00:00Z"));
    let key = CommandKey::from(CommandWithArgs::new("cargo", args(&["build"])));
    assert_eq!(store.read_previous(&"/tmp/x".to_string(), &key), Some(span(3, 250)));
}

#[test]
fn upsert_twice_keeps_one_entry_with_second_values() {
    let mut store = StoredDurations::default();
    store.add(run("cargo", &["build"], "/tmp/x", span(3, 0), "2024-05-01T10:00:00Z"));
    store.add(run("cargo", &["build"], "/tmp/x", span(7, 5), "2024-05-02T11:30:00Z"));

    let key = CommandKey::from(CommandWithArgs::new("cargo", args(&["build"])));
    assert_eq!(store.read_previous(&"/tmp/x".to_string(), &key), Some(span(7, 5)));

    let entries = store.entries();
    assert_eq!(entries.len(), 1);
    assert_eq!(entries[0].command.as_ref(), "cargo build");
    assert_eq!(entries[0].pwd, "/tmp/x");
    assert_eq!(entries[0].duration, span(7, 5));
    assert_eq!(entries[0].timestamp, "2024-05-02T11:30:00Z");
}

#[test]
fn upsert_keeps_other_entries() {
    let mut store = StoredDurations::default();
    store.add(run("cargo", &["build"], "/tmp/x", span(1, 0), "2024-05-01T10:00:00Z"));
    store.add(run("cargo", &["test"], "/tmp/x", span(2, 0), "2024-05-01T10:01:00Z"));
    store.add(run("cargo", &["build"], "/tmp/y", span(4, 0), "2024-05-01T10:02:00Z"));
    store.add(run("cargo", &["build"], "/tmp/x", span(9, 0), "2024-05-01T10:03:00Z"));

    let build = CommandKey::from(CommandWithArgs::new("cargo", args(&["build"])));
    let test = CommandKey::from(CommandWithArgs::new("cargo", args(&["test"])));
    assert_eq!(store.read_previous(&"/tmp/x".to_string(), &build), Some(span(9, 0)));
    assert_eq!(store.read_previous(&"/tmp/x".to_string(), &test), Some(span(2, 0)));
    assert_eq!(store.read_previous(&"/tmp/y".to_string(), &build), Some(span(4, 0)));
    assert_eq!(store.entries().len(), 3);
}

#[test]
fn entries_round_trip_preserves_mapping() {
    let mut store = StoredDurations::default();
    store.add(run("cargo", &["build"], "/tmp/x", span(1, 10), "2024-05-01T10:00:00Z"));
    store.add(run("cargo", &["test"], "/tmp/x", span(2, 20), "2024-05-01T10:01:00Z"));
    store.add(run("yarn", &["test"], "/home/u/web", span(12, 346_000_000), "2024-05-01T10:02:00Z"));

    let reloaded = StoredDurations::from_entries(store.entries());

    let build = CommandKey::from(CommandWithArgs::new("cargo", args(&["build"])));
    let test = CommandKey::from(CommandWithArgs::new("cargo", args(&["test"])));
    let yarn = CommandKey::from(CommandWithArgs::new("yarn", args(&["test"])));
    assert_eq!(reloaded.read_previous(&"/tmp/x".to_string(), &build), Some(span(1, 10)));
    assert_eq!(reloaded.read_previous(&"/tmp/x".to_string(), &test), Some(span(2, 20)));
    assert_eq!(
        reloaded.read_previous(&"/home/u/web".to_string(), &yarn),
        Some(span(12, 346_000_000))
    );
    assert_eq!(reloaded.read_previous(&"/tmp/x".to_string(), &yarn), None);
    assert_eq!(reloaded.entries().len(), 3);
}

#[test]
fn storage_error_messages() {
    assert_eq!(StorageError::Inaccessible.message(), "config file can not be created");
    assert_eq!(StorageError::Invalid.message(), "config file is not in a valid format");
    assert_eq!(StorageError::Disconnect.message(), "data store disconnected");
}

#[test]
fn recorded_run_here_keeps_fields() {
    let key = CommandKey::from(CommandWithArgs::new("echo", args(&["hi"])));
    let r = RecordedRun::here(key, "/tmp/x".to_string(), span(0, 42), "2024-05-01T10:00:00Z".to_string());
    assert_eq!(r.command.as_ref(), "echo hi");
    assert_eq!(r.pwd, "/tmp/x");
    assert_eq!(r.duration, span(0, 42));
    assert_eq!(r.timestamp, "2024-05-01T10:00:00Z");
}

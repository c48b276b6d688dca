//! Wraps execution of an external command, remembering how long each distinct
//! command took the last time it ran in the same working directory, so a later
//! run can show a percentage-complete estimate instead of an open-ended
//! spinner.
//!
//! The crate holds the verified core: deriving a stable signature for a
//! command line, the persistent duration store with its merge semantics, and
//! the decision logic of the progress driver and the run orchestrator. The
//! surrounding binary does the actual spawning, terminal drawing and file
//! I/O and hands plain values in and out.

use vstd::prelude::*;

pub mod driver;
pub mod storage;

pub use crate::storage::{RecordedRun, StoredDurations};

verus! {

/// A command name together with its argument list, as handed over on the
/// command line.
#[derive(Debug)]
pub struct CommandWithArgs {
    pub cmd: String,
    pub args: Vec<String>,
}

impl Clone for CommandWithArgs {
    fn clone(&self) -> (r: Self)
        ensures
            r.cmd@ == self.cmd@,
            r.args.deep_view() == self.args.deep_view(),
    {
        let r = CommandWithArgs { cmd: self.cmd.clone(), args: self.args.clone() };
        proof {
            assert(r.args.deep_view() =~= self.args.deep_view());
        }
        r
    }
}

impl CommandWithArgs {
    /// Bundles a command name with its arguments, exactly as given.
    pub fn new(cmd: &str, args: Vec<String>) -> (r: Self)
        ensures
            r.cmd@ == cmd@,
            r.args == args,
    {
        CommandWithArgs { cmd: cmd.to_owned(), args }
    }
}

} // verus!

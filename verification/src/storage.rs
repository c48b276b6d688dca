//! The run-history store: command signatures, recorded runs, and the
//! two-level mapping from working directory and signature to the most
//! recently observed duration.

use vstd::prelude::*;
use crate::CommandWithArgs;

verus! {

/// A non-negative time span, as whole seconds plus a nanosecond remainder.
///
/// This is the shape durations take in the persisted file; the binary
/// converts the platform's duration type to and from it at the boundary.
#[derive(Clone, Copy, Debug, PartialEq, Eq, Structural)]
pub struct Span {
    pub secs: u64,
    pub nanos: u32,
}

/// An argument is flag-like when it begins with `-`; the signature keeps
/// only the arguments before the first such token.
pub open spec fn is_flag(arg: Seq<char>) -> bool {
    arg.len() > 0 && arg[0] == '-'
}

/// The leading arguments up to (excluding) the first flag-like token.
pub open spec fn nonflag_prefix(args: Seq<Seq<char>>) -> Seq<Seq<char>>
    decreases args.len(),
{
    if args.len() == 0 {
        Seq::empty()
    } else if is_flag(args[0]) {
        Seq::empty()
    } else {
        seq![args[0]] + nonflag_prefix(args.subrange(1, args.len() as int))
    }
}

/// The command name followed by each argument, separated by single spaces.
pub open spec fn joined(cmd: Seq<char>, args: Seq<Seq<char>>) -> Seq<char>
    decreases args.len(),
{
    if args.len() == 0 {
        cmd
    } else {
        joined(cmd, args.drop_last()) + seq![' '] + args.last()
    }
}

/// The signature of a command line: the command name joined with the
/// arguments before the first flag-like token.
pub open spec fn signature_of(cmd: Seq<char>, args: Seq<Seq<char>>) -> Seq<char> {
    joined(cmd, nonflag_prefix(args))
}

proof fn lemma_nonflag_prefix_take(args: Seq<Seq<char>>, i: int)
    requires
        0 <= i <= args.len(),
        forall|j: int| 0 <= j < i ==> !is_flag(args[j]),
        i < args.len() ==> is_flag(args[i]),
    ensures
        nonflag_prefix(args) == args.take(i),
    decreases args.len(),
{
    if args.len() == 0 {
        assert(args.take(i) =~= Seq::<Seq<char>>::empty());
    } else if is_flag(args[0]) {
        assert(i == 0);
        assert(args.take(0) =~= Seq::<Seq<char>>::empty());
    } else {
        assert(i >= 1);
        let rest = args.subrange(1, args.len() as int);
        lemma_nonflag_prefix_take(rest, i - 1);
        assert(seq![args[0]] + rest.take(i - 1) =~= args.take(i));
    }
}

/// Signatures ignore everything from the first flag-like argument on: two
/// argument lists with the same leading non-flag arguments give the same
/// signature for any command.
pub proof fn lemma_signature_ignores_flags(cmd: Seq<char>, a1: Seq<Seq<char>>, a2: Seq<Seq<char>>)
    requires
        nonflag_prefix(a1) == nonflag_prefix(a2),
    ensures
        signature_of(cmd, a1) == signature_of(cmd, a2),
{
}

/// In particular, whatever follows the first flag-like token is dropped
/// entirely: a list of non-flag arguments followed by any tail that
/// starts with a flag signs exactly as the non-flag arguments alone.
pub proof fn lemma_signature_drops_tail(cmd: Seq<char>, lead: Seq<Seq<char>>, tail: Seq<Seq<char>>)
    requires
        forall|j: int| 0 <= j < lead.len() ==> !is_flag(lead[j]),
        tail.len() > 0 ==> is_flag(tail[0]),
    ensures
        signature_of(cmd, lead + tail) == joined(cmd, lead),
{
    lemma_nonflag_prefix_take(lead + tail, lead.len() as int);
    assert((lead + tail).take(lead.len() as int) =~= lead);
}

/// A stable cache key for a command line: the command name and the
/// arguments before the first flag, space-separated.
#[derive(Debug)]
pub struct CommandKey(String);

impl Clone for CommandKey {
    fn clone(&self) -> (r: Self)
        ensures
            r@ == self@,
    {
        CommandKey(self.0.clone())
    }
}

impl View for CommandKey {
    type V = Seq<char>;

    closed spec fn view(&self) -> Seq<char> {
        self.0@
    }
}

impl PartialEq for CommandKey {
    fn eq(&self, other: &CommandKey) -> (r: bool) {
        self.0 == other.0
    }
}

impl vstd::std_specs::cmp::PartialEqSpecImpl for CommandKey {
    open spec fn obeys_eq_spec() -> bool {
        true
    }

    open spec fn eq_spec(&self, other: &CommandKey) -> bool {
        self@ == other@
    }
}

impl CommandKey {
    /// Derives the signature of a command line: the command name joined
    /// with each argument up to the first flag-like one, single spaces in
    /// between. Deterministic and total.
    pub fn from(call: CommandWithArgs) -> (r: CommandKey)
        ensures
            r@ == signature_of(call.cmd@, call.args.deep_view()),
    {
        let ghost dv: Seq<Seq<char>> = call.args.deep_view();
        let mut s: String = call.cmd.as_str().to_owned();
        let n = call.args.len();
        let mut i: usize = 0;
        let mut stopped = false;
        proof {
            assert(dv.take(0) =~= Seq::<Seq<char>>::empty());
        }
        while i < n && !stopped
            invariant
                i <= n,
                n == call.args.len(),
                dv == call.args.deep_view(),
                forall|j: int| 0 <= j < i ==> !is_flag(dv[j]),
                stopped ==> i < n && is_flag(dv[i as int]),
                s@ == joined(call.cmd@, dv.take(i as int)),
            decreases n - i, (if stopped { 0int } else { 1int }),
        {
            let a = &call.args[i];
            let len = a.as_str().unicode_len();
            let flagged = if len == 0 {
                false
            } else {
                a.as_str().get_char(0) == '-'
            };
            if flagged {
                stopped = true;
            } else {
                s.append(" ");
                s.append(a.as_str());
                i += 1;
                proof {
                    reveal_strlit(" ");
                    assert(" "@ =~= seq![' ']);
                    assert(dv.take(i as int).drop_last() =~= dv.take(i as int - 1));
                    assert(dv.take(i as int).last() == dv[i as int - 1]);
                }
            }
        }
        proof {
            lemma_nonflag_prefix_take(dv, i as int);
        }
        CommandKey(s)
    }

    /// The signature as its plain string rendering.
    pub fn as_ref(&self) -> (r: &String)
        ensures
            r@ == self@,
    {
        &self.0
    }
}

/// Why the persisted history could not be read or written: the
/// configuration directory is unusable, the file's content is malformed,
/// or the file itself could not be read or written. The binary maps the
/// platform's I/O and parse errors onto these before handing them on.
#[derive(Clone, Copy, Debug, PartialEq, Eq, Structural)]
pub enum StorageError {
    Inaccessible,
    Invalid,
    Disconnect,
}

impl StorageError {
    /// A human-readable description of the failure.
    pub fn message(&self) -> (r: &'static str)
        ensures
            (match self {
                StorageError::Inaccessible => r@ == "config file can not be created"@,
                StorageError::Invalid => r@ == "config file is not in a valid format"@,
                StorageError::Disconnect => r@ == "data store disconnected"@,
            }),
    {
        match self {
            StorageError::Inaccessible => "config file can not be created",
            StorageError::Invalid => "config file is not in a valid format",
            StorageError::Disconnect => "data store disconnected",
        }
    }
}

/// One finished run: the signature it ran under, the directory it ran in,
/// the measured wall-clock duration, and the completion timestamp as its
/// textual rendering. Immutable once constructed; every execution builds a
/// fresh record.
#[derive(Debug)]
pub struct RecordedRun {
    pub command: CommandKey,
    pub pwd: String,
    pub duration: Span,
    pub timestamp: String,
}

impl Clone for RecordedRun {
    fn clone(&self) -> (r: Self)
        ensures
            r.command@ == self.command@,
            r.pwd@ == self.pwd@,
            r.duration == self.duration,
            r.timestamp@ == self.timestamp@,
    {
        RecordedRun {
            command: self.command.clone(),
            pwd: self.pwd.clone(),
            duration: self.duration,
            timestamp: self.timestamp.clone(),
        }
    }
}

impl RecordedRun {
    /// Bundles the pieces of one finished run into a record.
    pub fn here(command: CommandKey, pwd: String, duration: Span, timestamp: String) -> (r: Self)
        ensures
            r.command@ == command@,
            r.pwd@ == pwd@,
            r.duration == duration,
            r.timestamp@ == timestamp@,
    {
        RecordedRun { command, pwd, duration, timestamp }
    }
}

/// What a stored run contributes to the mapping: its duration and its
/// timestamp text, keyed elsewhere by directory and signature.
pub open spec fn run_val(r: RecordedRun) -> (Span, Seq<char>) {
    (r.duration, r.timestamp@)
}

/// The runs of one directory, keyed by command signature. At most one run
/// is kept per signature.
#[derive(Debug)]
pub struct RunByCommand {
    runs: Vec<RecordedRun>,
}

/// The mapping described by a list of runs keyed by their signatures;
/// later entries win.
pub open spec fn runs_map(s: Seq<RecordedRun>) -> Map<Seq<char>, (Span, Seq<char>)>
    decreases s.len(),
{
    if s.len() == 0 {
        Map::empty()
    } else {
        runs_map(s.drop_last()).insert(s.last().command@, run_val(s.last()))
    }
}

spec fn unique_cmds(s: Seq<RecordedRun>) -> bool {
    forall|i: int, j: int| 0 <= i < j < s.len() ==> s[i].command@ != s[j].command@
}

impl View for RunByCommand {
    type V = Map<Seq<char>, (Span, Seq<char>)>;

    closed spec fn view(&self) -> Map<Seq<char>, (Span, Seq<char>)> {
        runs_map(self.runs@)
    }
}

impl RunByCommand {
    /// The bucket is non-empty, keeps at most one run per signature, and
    /// every run in it ran in the directory `pwd` it is filed under.
    pub closed spec fn wf_in(&self, pwd: Seq<char>) -> bool {
        &&& self.runs.len() > 0
        &&& unique_cmds(self.runs@)
        &&& forall|i: int| 0 <= i < self.runs@.len() ==> self.runs@[i].pwd@ == pwd
    }
}

#[derive(Debug)]
struct PathRuns {
    pwd: String,
    by_command: RunByCommand,
}

spec fn paths_map(s: Seq<PathRuns>) -> Map<Seq<char>, Map<Seq<char>, (Span, Seq<char>)>>
    decreases s.len(),
{
    if s.len() == 0 {
        Map::empty()
    } else {
        paths_map(s.drop_last()).insert(s.last().pwd@, runs_map(s.last().by_command.runs@))
    }
}

spec fn unique_pwds(s: Seq<PathRuns>) -> bool {
    forall|i: int, j: int| 0 <= i < j < s.len() ==> s[i].pwd@ != s[j].pwd@
}

/// The persistent two-level mapping from working directory to command
/// signature to the most recently recorded run.
#[derive(Debug)]
pub struct StoredDurations {
    paths: Vec<PathRuns>,
}

impl View for StoredDurations {
    type V = Map<Seq<char>, Map<Seq<char>, (Span, Seq<char>)>>;

    closed spec fn view(&self) -> Map<Seq<char>, Map<Seq<char>, (Span, Seq<char>)>> {
        paths_map(self.paths@)
    }
}

impl StoredDurations {
    /// Directories are listed at most once, and each directory's bucket is
    /// well-formed and filed under that directory.
    pub closed spec fn wf(&self) -> bool {
        &&& unique_pwds(self.paths@)
        &&& forall|i: int| 0 <= i < self.paths@.len()
            ==> (#[trigger] self.paths@[i]).by_command.wf_in(self.paths@[i].pwd@)
    }
}

/// The mapping after recording a run: the directory's bucket (empty when
/// the directory is new) gains or replaces the entry for the signature.
pub open spec fn upserted(
    m: Map<Seq<char>, Map<Seq<char>, (Span, Seq<char>)>>,
    pwd: Seq<char>,
    key: Seq<char>,
    duration: Span,
    timestamp: Seq<char>,
) -> Map<Seq<char>, Map<Seq<char>, (Span, Seq<char>)>> {
    let inner = if m.contains_key(pwd) {
        m[pwd]
    } else {
        Map::empty()
    };
    m.insert(pwd, inner.insert(key, (duration, timestamp)))
}

/// The mapping described by a flat list of records, recorded in order.
pub open spec fn store_of(entries: Seq<RecordedRun>) -> Map<
    Seq<char>,
    Map<Seq<char>, (Span, Seq<char>)>,
>
    decreases entries.len(),
{
    if entries.len() == 0 {
        Map::empty()
    } else {
        upserted(
            store_of(entries.drop_last()),
            entries.last().pwd@,
            entries.last().command@,
            entries.last().duration,
            entries.last().timestamp@,
        )
    }
}

/// Every record in the list names an entry of the mapping and carries
/// exactly that entry's duration and timestamp.
pub open spec fn lists_entries_of(
    s: Seq<RecordedRun>,
    m: Map<Seq<char>, Map<Seq<char>, (Span, Seq<char>)>>,
) -> bool {
    forall|t: int|
        0 <= t < s.len() ==> {
            &&& m.contains_key((#[trigger] s[t]).pwd@)
            &&& m[s[t].pwd@].contains_key(s[t].command@)
            &&& m[s[t].pwd@][s[t].command@] == run_val(s[t])
        }
}

/// No two records in the list share a (directory, signature) pair.
pub open spec fn distinct_keys(s: Seq<RecordedRun>) -> bool {
    forall|t: int, u: int|
        0 <= t < u < s.len() ==> !((#[trigger] s[t]).pwd@ == (#[trigger] s[u]).pwd@
            && s[t].command@ == s[u].command@)
}

/// Recording twice for the same directory and signature is the same as
/// recording only the second time: exactly one entry remains for that
/// key, and it holds the second record's duration and timestamp.
pub proof fn lemma_upsert_last_wins(
    m: Map<Seq<char>, Map<Seq<char>, (Span, Seq<char>)>>,
    pwd: Seq<char>,
    key: Seq<char>,
    d1: Span,
    t1: Seq<char>,
    d2: Span,
    t2: Seq<char>,
)
    ensures
        upserted(upserted(m, pwd, key, d1, t1), pwd, key, d2, t2) == upserted(m, pwd, key, d2, t2),
{
    let once = upserted(m, pwd, key, d1, t1);
    let inner = if m.contains_key(pwd) {
        m[pwd]
    } else {
        Map::<Seq<char>, (Span, Seq<char>)>::empty()
    };
    assert(once[pwd] == inner.insert(key, (d1, t1)));
    assert(inner.insert(key, (d1, t1)).insert(key, (d2, t2)) =~= inner.insert(key, (d2, t2)));
    assert(upserted(once, pwd, key, d2, t2) =~= upserted(m, pwd, key, d2, t2));
}

/// A run just recorded is found again: after recording, the mapping has
/// an entry for that directory and signature, and it holds the new
/// duration and timestamp.
pub proof fn lemma_lookup_after_upsert(
    m: Map<Seq<char>, Map<Seq<char>, (Span, Seq<char>)>>,
    pwd: Seq<char>,
    key: Seq<char>,
    duration: Span,
    timestamp: Seq<char>,
)
    ensures
        upserted(m, pwd, key, duration, timestamp).contains_key(pwd),
        upserted(m, pwd, key, duration, timestamp)[pwd].contains_key(key),
        upserted(m, pwd, key, duration, timestamp)[pwd][key] == (duration, timestamp),
{
}

proof fn lemma_runs_map_dom(s: Seq<RecordedRun>, k: Seq<char>)
    ensures
        runs_map(s).contains_key(k) <==> exists|i: int|
            0 <= i < s.len() && #[trigger] s[i].command@ == k,
    decreases s.len(),
{
    if s.len() > 0 {
        lemma_runs_map_dom(s.drop_last(), k);
        if s.last().command@ == k {
            assert(s[s.len() - 1].command@ == k);
        } else {
            if runs_map(s).contains_key(k) {
                let i = choose|i: int|
                    0 <= i < s.drop_last().len() && #[trigger] s.drop_last()[i].command@ == k;
                assert(s[i].command@ == k);
            }
            if exists|i: int| 0 <= i < s.len() && #[trigger] s[i].command@ == k {
                let i = choose|i: int| 0 <= i < s.len() && #[trigger] s[i].command@ == k;
                assert(s.drop_last()[i].command@ == k);
            }
        }
    }
}

proof fn lemma_runs_map_at(s: Seq<RecordedRun>, i: int)
    requires
        0 <= i < s.len(),
        unique_cmds(s),
    ensures
        runs_map(s).contains_key(s[i].command@),
        runs_map(s)[s[i].command@] == run_val(s[i]),
    decreases s.len(),
{
    if i < s.len() - 1 {
        lemma_runs_map_at(s.drop_last(), i);
        assert(s[i].command@ != s[s.len() - 1].command@);
    }
}

proof fn lemma_runs_map_update(s: Seq<RecordedRun>, i: int, r: RecordedRun)
    requires
        0 <= i < s.len(),
        unique_cmds(s),
        r.command@ == s[i].command@,
    ensures
        runs_map(s.update(i, r)) == runs_map(s).insert(r.command@, run_val(r)),
    decreases s.len(),
{
    let t = s.update(i, r);
    if i == s.len() - 1 {
        assert(t.drop_last() =~= s.drop_last());
        assert(t.last() == r);
        assert(runs_map(s.drop_last()).insert(r.command@, run_val(r)) =~= runs_map(s).insert(
            r.command@,
            run_val(r),
        ));
    } else {
        assert(t.drop_last() =~= s.drop_last().update(i, r));
        assert(t.last() == s.last());
        lemma_runs_map_update(s.drop_last(), i, r);
        assert(s[i].command@ != s[s.len() - 1].command@);
        assert(runs_map(s.drop_last()).insert(r.command@, run_val(r)).insert(
            s.last().command@,
            run_val(s.last()),
        ) =~= runs_map(s).insert(r.command@, run_val(r)));
    }
}

proof fn lemma_runs_map_take_step(s: Seq<RecordedRun>, i: int)
    requires
        0 <= i < s.len(),
    ensures
        runs_map(s.take(i + 1)) == runs_map(s.take(i)).insert(s[i].command@, run_val(s[i])),
{
    assert(s.take(i + 1).drop_last() =~= s.take(i));
    assert(s.take(i + 1).last() == s[i]);
}

impl RunByCommand {
    /// A fresh single-run bucket for the directory the record ran in.
    pub fn from(recording: RecordedRun) -> (r: RunByCommand)
        ensures
            r@ == Map::<Seq<char>, (Span, Seq<char>)>::empty().insert(
                recording.command@,
                run_val(recording),
            ),
            r.wf_in(recording.pwd@),
    {
        let mut runs: Vec<RecordedRun> = Vec::new();
        runs.push(recording);
        let r = RunByCommand { runs };
        proof {
            assert(r.runs@.drop_last() =~= Seq::<RecordedRun>::empty());
            assert(r.runs@.last() == recording);
            assert(runs_map(Seq::<RecordedRun>::empty()) == Map::<
                Seq<char>,
                (Span, Seq<char>),
            >::empty());
        }
        r
    }

    /// Records a run in this bucket: an existing entry for the same
    /// signature keeps its identity but takes the new duration and
    /// timestamp; a new signature is appended.
    fn upsert(&mut self, recording: RecordedRun)
        requires
            old(self).wf_in(recording.pwd@),
        ensures
            final(self).wf_in(recording.pwd@),
            final(self)@ == old(self)@.insert(recording.command@, run_val(recording)),
    {
        let m = self.runs.len();
        let mut j: usize = 0;
        while j < m
            invariant
                j <= m,
                m == self.runs.len(),
                self == old(self),
                old(self).wf_in(recording.pwd@),
                forall|t: int| 0 <= t < j ==> self.runs@[t].command@ != recording.command@,
            decreases m - j,
        {
            if self.runs[j].command == recording.command {
                let ghost s0 = self.runs@;
                self.runs[j].duration = recording.duration;
                self.runs[j].timestamp = recording.timestamp;
                proof {
                    assert(self.runs@ =~= s0.update(j as int, self.runs@[j as int]));
                    lemma_runs_map_update(s0, j as int, self.runs@[j as int]);
                    assert forall|a: int, b: int|
                        0 <= a < b < self.runs@.len() implies self.runs@[a].command@
                        != self.runs@[b].command@ by {
                        assert(self.runs@[a].command@ == s0[a].command@);
                        assert(self.runs@[b].command@ == s0[b].command@);
                    }
                    assert forall|t: int|
                        0 <= t < self.runs@.len() implies self.runs@[t].pwd@
                        == recording.pwd@ by {
                        assert(self.runs@[t].pwd@ == s0[t].pwd@);
                    }
                }
                return ;
            }
            j += 1;
        }
        let ghost s0 = self.runs@;
        self.runs.push(recording);
        proof {
            assert(self.runs@.drop_last() =~= s0);
        }
    }
}

proof fn lemma_paths_map_dom(s: Seq<PathRuns>, k: Seq<char>)
    ensures
        paths_map(s).contains_key(k) <==> exists|i: int|
            0 <= i < s.len() && #[trigger] s[i].pwd@ == k,
    decreases s.len(),
{
    if s.len() > 0 {
        lemma_paths_map_dom(s.drop_last(), k);
        if s.last().pwd@ == k {
            assert(s[s.len() - 1].pwd@ == k);
        } else {
            if paths_map(s).contains_key(k) {
                let i = choose|i: int|
                    0 <= i < s.drop_last().len() && #[trigger] s.drop_last()[i].pwd@ == k;
                assert(s[i].pwd@ == k);
            }
            if exists|i: int| 0 <= i < s.len() && #[trigger] s[i].pwd@ == k {
                let i = choose|i: int| 0 <= i < s.len() && #[trigger] s[i].pwd@ == k;
                assert(s.drop_last()[i].pwd@ == k);
            }
        }
    }
}

proof fn lemma_paths_map_at(s: Seq<PathRuns>, i: int)
    requires
        0 <= i < s.len(),
        unique_pwds(s),
    ensures
        paths_map(s).contains_key(s[i].pwd@),
        paths_map(s)[s[i].pwd@] == runs_map(s[i].by_command.runs@),
    decreases s.len(),
{
    if i < s.len() - 1 {
        lemma_paths_map_at(s.drop_last(), i);
        assert(s[i].pwd@ != s[s.len() - 1].pwd@);
    }
}

proof fn lemma_paths_map_update(s: Seq<PathRuns>, i: int, e: PathRuns)
    requires
        0 <= i < s.len(),
        unique_pwds(s),
        e.pwd@ == s[i].pwd@,
    ensures
        paths_map(s.update(i, e)) == paths_map(s).insert(e.pwd@, runs_map(e.by_command.runs@)),
    decreases s.len(),
{
    let t = s.update(i, e);
    if i == s.len() - 1 {
        assert(t.drop_last() =~= s.drop_last());
        assert(t.last() == e);
        assert(paths_map(s.drop_last()).insert(e.pwd@, runs_map(e.by_command.runs@))
            =~= paths_map(s).insert(e.pwd@, runs_map(e.by_command.runs@)));
    } else {
        assert(t.drop_last() =~= s.drop_last().update(i, e));
        assert(t.last() == s.last());
        lemma_paths_map_update(s.drop_last(), i, e);
        assert(s[i].pwd@ != s[s.len() - 1].pwd@);
        assert(paths_map(s.drop_last()).insert(e.pwd@, runs_map(e.by_command.runs@)).insert(
            s.last().pwd@,
            runs_map(s.last().by_command.runs@),
        ) =~= paths_map(s).insert(e.pwd@, runs_map(e.by_command.runs@)));
    }
}

impl Default for StoredDurations {
    /// The empty store: no directory has any recorded run.
    fn default() -> (r: Self)
        ensures
            r.wf(),
            r@ == Map::<Seq<char>, Map<Seq<char>, (Span, Seq<char>)>>::empty(),
    {
        StoredDurations { paths: Vec::new() }
    }
}

impl StoredDurations {
    /// Looks up the duration recorded for `command` in the directory
    /// `pwd`: the stored duration when such a run exists, nothing when the
    /// directory or the signature was never recorded.
    pub fn read_previous(&self, pwd: &String, command: &CommandKey) -> (r: Option<Span>)
        requires
            self.wf(),
        ensures
            r == (if self@.contains_key(pwd@) && self@[pwd@].contains_key(command@) {
                Some(self@[pwd@][command@].0)
            } else {
                Option::<Span>::None
            }),
    {
        let n = self.paths.len();
        let mut i: usize = 0;
        while i < n
            invariant
                i <= n,
                n == self.paths.len(),
                self.wf(),
                forall|t: int| 0 <= t < i ==> self.paths@[t].pwd@ != pwd@,
            decreases n - i,
        {
            if self.paths[i].pwd == *pwd {
                proof {
                    lemma_paths_map_at(self.paths@, i as int);
                }
                let bucket = &self.paths[i].by_command;
                let m = bucket.runs.len();
                let mut j: usize = 0;
                while j < m
                    invariant
                        j <= m,
                        m == bucket.runs.len(),
                        unique_cmds(bucket.runs@),
                        self@.contains_key(pwd@),
                        self@[pwd@] == runs_map(bucket.runs@),
                        forall|t: int| 0 <= t < j ==> bucket.runs@[t].command@ != command@,
                    decreases m - j,
                {
                    if bucket.runs[j].command == *command {
                        proof {
                            lemma_runs_map_at(bucket.runs@, j as int);
                        }
                        return Some(bucket.runs[j].duration);
                    }
                    j += 1;
                }
                proof {
                    lemma_runs_map_dom(bucket.runs@, command@);
                }
                return None;
            }
            i += 1;
        }
        proof {
            lemma_paths_map_dom(self.paths@, pwd@);
        }
        None
    }

    /// Records a run: the entry for the record's directory and signature
    /// takes the record's duration and timestamp, whether it existed
    /// before or not, and no other entry changes.
    pub fn add(&mut self, recording: RecordedRun)
        requires
            old(self).wf(),
        ensures
            final(self).wf(),
            final(self)@ == upserted(
                old(self)@,
                recording.pwd@,
                recording.command@,
                recording.duration,
                recording.timestamp@,
            ),
    {
        let n = self.paths.len();
        let mut i: usize = 0;
        while i < n
            invariant
                i <= n,
                n == self.paths.len(),
                self == old(self),
                self.wf(),
                forall|t: int| 0 <= t < i ==> self.paths@[t].pwd@ != recording.pwd@,
            decreases n - i,
        {
            if self.paths[i].pwd == recording.pwd {
                let ghost p0 = self.paths@;
                proof {
                    lemma_paths_map_at(p0, i as int);
                }
                self.paths[i].by_command.upsert(recording);
                proof {
                    assert(self.paths@ =~= p0.update(i as int, self.paths@[i as int]));
                    lemma_paths_map_update(p0, i as int, self.paths@[i as int]);
                }
                return ;
            }
            i += 1;
        }
        proof {
            lemma_paths_map_dom(self.paths@, recording.pwd@);
        }
        let ghost p0 = self.paths@;
        let pwd = recording.pwd.clone();
        let entry = PathRuns { pwd, by_command: RunByCommand::from(recording) };
        self.paths.push(entry);
        proof {
            assert(self.paths@.drop_last() =~= p0);
        }
    }

    /// Flattens the store into one record per (directory, signature)
    /// entry: the list names no pair twice, every record carries exactly
    /// the stored duration and timestamp of its pair, and recording the
    /// list into an empty store, in order, rebuilds exactly this mapping.
    pub fn entries(&self) -> (r: Vec<RecordedRun>)
        requires
            self.wf(),
        ensures
            store_of(r@) == self@,
            distinct_keys(r@),
            lists_entries_of(r@, self@),
    {
        let mut acc: Vec<RecordedRun> = Vec::new();
        let n = self.paths.len();
        let mut i: usize = 0;
        while i < n
            invariant
                i <= n,
                n == self.paths.len(),
                self.wf(),
                store_of(acc@) == paths_map(self.paths@.take(i as int)),
                distinct_keys(acc@),
                lists_entries_of(acc@, self@),
                forall|t: int|
                    0 <= t < acc@.len() ==> exists|a: int|
                        0 <= a < i && (#[trigger] acc@[t]).pwd@ == self.paths@[a].pwd@,
            decreases n - i,
        {
            let bucket = &self.paths[i].by_command;
            let m = bucket.runs.len();
            let mut j: usize = 0;
            proof {
                lemma_paths_map_dom(self.paths@.take(i as int), self.paths@[i as int].pwd@);
                assert(forall|t: int|
                    0 <= t < i ==> (#[trigger] self.paths@.take(i as int)[t]).pwd@
                        == self.paths@[t].pwd@);
                assert forall|t: int| 0 <= t < acc@.len() implies (#[trigger] acc@[t]).pwd@
                    != self.paths@[i as int].pwd@ by {
                    let a = choose|a: int|
                        0 <= a < i && (#[trigger] acc@[t]).pwd@ == self.paths@[a].pwd@;
                    assert(self.paths@[a].pwd@ != self.paths@[i as int].pwd@);
                }
            }
            while j < m
                invariant
                    j <= m,
                    i < n,
                    n == self.paths.len(),
                    m == bucket.runs.len(),
                    self.wf(),
                    bucket == &self.paths@[i as int].by_command,
                    !paths_map(self.paths@.take(i as int)).contains_key(
                        self.paths@[i as int].pwd@,
                    ),
                    (j == 0 ==> store_of(acc@) == paths_map(self.paths@.take(i as int))),
                    (j > 0 ==> store_of(acc@) == paths_map(self.paths@.take(i as int)).insert(
                        self.paths@[i as int].pwd@,
                        runs_map(bucket.runs@.take(j as int)),
                    )),
                    distinct_keys(acc@),
                    lists_entries_of(acc@, self@),
                    forall|t: int|
                        0 <= t < acc@.len() ==> ((#[trigger] acc@[t]).pwd@ == self.paths@[
                            i as int
                        ].pwd@ ==> exists|b: int|
                            0 <= b < j && acc@[t].command@ == bucket.runs@[b].command@),
                    forall|t: int|
                        0 <= t < acc@.len() ==> ((#[trigger] acc@[t]).pwd@ != self.paths@[
                            i as int
                        ].pwd@ ==> exists|a: int|
                            0 <= a < i && acc@[t].pwd@ == self.paths@[a].pwd@),
                decreases m - j,
            {
                let e = bucket.runs[j].clone();
                let ghost acc0 = acc@;
                acc.push(e);
                proof {
                    assert(acc@.drop_last() =~= acc0);
                    lemma_runs_map_take_step(bucket.runs@, j as int);
                    if j == 0 {
                        assert(bucket.runs@.take(0int) =~= Seq::<RecordedRun>::empty());
                    } else {
                        assert(paths_map(self.paths@.take(i as int)).insert(
                            self.paths@[i as int].pwd@,
                            runs_map(bucket.runs@.take(j as int)),
                        ).insert(
                            self.paths@[i as int].pwd@,
                            runs_map(bucket.runs@.take(j as int)).insert(
                                bucket.runs@[j as int].command@,
                                run_val(bucket.runs@[j as int]),
                            ),
                        ) =~= paths_map(self.paths@.take(i as int)).insert(
                            self.paths@[i as int].pwd@,
                            runs_map(bucket.runs@.take(j as int + 1)),
                        ));
                    }
                    let ghost last = acc@.len() - 1;
                    lemma_paths_map_at(self.paths@, i as int);
                    lemma_runs_map_at(bucket.runs@, j as int);
                    assert(acc@[last].pwd@ == self.paths@[i as int].pwd@);
                    assert(acc@[last].command@ == bucket.runs@[j as int].command@);
                    assert(run_val(acc@[last]) == run_val(bucket.runs@[j as int]));
                    assert forall|t: int, u: int|
                        0 <= t < u < acc@.len() implies !((#[trigger] acc@[t]).pwd@
                        == (#[trigger] acc@[u]).pwd@ && acc@[t].command@ == acc@[u].command@) by {
                        if u == last && acc@[t].pwd@ == acc@[u].pwd@ {
                            let b = choose|b: int|
                                0 <= b < j && acc0[t].command@ == bucket.runs@[b].command@;
                            assert(bucket.runs@[b].command@ != bucket.runs@[j as int].command@);
                        }
                    }
                }
                j += 1;
            }
            proof {
                assert(bucket.runs@.take(m as int) =~= bucket.runs@);
                lemma_paths_map_take_step(self.paths@, i as int);
                assert forall|t: int| 0 <= t < acc@.len() implies exists|a: int|
                    0 <= a < i + 1 && (#[trigger] acc@[t]).pwd@ == self.paths@[a].pwd@ by {
                    if acc@[t].pwd@ == self.paths@[i as int].pwd@ {
                        assert(0 <= i < i + 1 && acc@[t].pwd@ == self.paths@[i as int].pwd@);
                    } else {
                        let a = choose|a: int|
                            0 <= a < i && (#[trigger] acc@[t]).pwd@ == self.paths@[a].pwd@;
                        assert(0 <= a < i + 1 && acc@[t].pwd@ == self.paths@[a].pwd@);
                    }
                }
            }
            i += 1;
        }
        proof {
            assert(self.paths@.take(n as int) =~= self.paths@);
        }
        acc
    }

    /// Rebuilds a store by recording each listed run in order, starting
    /// from the empty store.
    pub fn from_entries(list: Vec<RecordedRun>) -> (r: StoredDurations)
        ensures
            r.wf(),
            r@ == store_of(list@),
    {
        let mut r = StoredDurations::default();
        let n = list.len();
        let mut i: usize = 0;
        while i < n
            invariant
                i <= n,
                n == list.len(),
                r.wf(),
                r@ == store_of(list@.take(i as int)),
            decreases n - i,
        {
            let e = list[i].clone();
            r.add(e);
            proof {
                assert(list@.take(i as int + 1).drop_last() =~= list@.take(i as int));
                assert(list@.take(i as int + 1).last() == list@[i as int]);
            }
            i += 1;
        }
        proof {
            assert(list@.take(n as int) =~= list@);
        }
        r
    }
}

proof fn lemma_paths_map_take_step(s: Seq<PathRuns>, i: int)
    requires
        0 <= i < s.len(),
    ensures
        paths_map(s.take(i + 1)) == paths_map(s.take(i)).insert(
            s[i].pwd@,
            runs_map(s[i].by_command.runs@),
        ),
{
    assert(s.take(i + 1).drop_last() =~= s.take(i));
    assert(s.take(i + 1).last() == s[i]);
}

} // verus!

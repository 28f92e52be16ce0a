//! Snapshots and branches: enabling versioning, saving, listing,
//! restoring and deleting snapshots, and moving between branches.
use vstd::prelude::*;

use crate::git::protocol::{check_raw, check_run, cvec, git1, mismatch_text, output_lines, raw_result, records, stdout_lines, stdout_records, GitErrV, GitOutput, StepV, lemma_split_fields_len, flow_step, git2, git3, git4, git7, lemma_script_finished, output_at, progress_is, progress_step, run_result, run_script, rvec, script, step_is, trimmed, trimmed_stdout, Flow, GitError, Progress, Reply, Request, RequestV, Step};
use crate::text::{append_chars, append_str, byte_cut_ok, chars_equal_str, chars_of, chars_within, chars_within_exec, contains_chars, contains_str, lines, lines_of, lossy_text, string_lit, string_of, trim, trim_chars, utf8_lossy};

verus! {

/// Outcome of trying to save a snapshot: `NothingToCommit` is not an
/// error, the world just has not changed since the last snapshot.
#[derive(Debug, Clone, PartialEq, Eq)]
pub enum CommitOutcome {
    Created(String),
    NothingToCommit,
}

/// The view of a commit outcome.
pub enum CommitV {
    Created(Seq<char>),
    NothingToCommit,
}

impl CommitOutcome {
    /// The outcome as values.
    pub open spec fn view(self) -> CommitV {
        match self {
            CommitOutcome::Created(h) => CommitV::Created(h@),
            CommitOutcome::NothingToCommit => CommitV::NothingToCommit,
        }
    }
}

/// The two `config --local` invocations that set the commit identity.
pub open spec fn identity_reqs(name: Seq<char>, email: Seq<char>) -> Seq<RequestV> {
    seq![
        RequestV::Git(seq!["config"@, "--local"@, "user.name"@, name]),
        RequestV::Git(seq!["config"@, "--local"@, "user.email"@, email]),
    ]
}

/// What a snapshot runs before deciding whether there is anything to
/// commit: the identity, `add -A`, `status --porcelain`.
pub open spec fn commit_prelude(name: Seq<char>, email: Seq<char>) -> Seq<RequestV> {
    identity_reqs(name, email) + seq![
        RequestV::Git(seq!["add"@, "-A"@]),
        RequestV::Git(seq!["status"@, "--porcelain"@]),
    ]
}

/// What a snapshot runs when there is something to commit.
pub open spec fn commit_finish(msg: Seq<char>) -> Seq<RequestV> {
    seq![RequestV::Git(seq!["commit"@, "-m"@, msg]), RequestV::Git(seq!["rev-parse"@, "HEAD"@])]
}

/// Saving a snapshot: set the identity, stage everything; if `status
/// --porcelain` prints nothing, there is nothing to commit; otherwise
/// commit with `msg` and report the new `HEAD` (trimmed).
pub open spec fn commit_flow(msg: Seq<char>, name: Seq<char>, email: Seq<char>, r: Seq<Reply>) -> Flow<CommitV> {
    match script(commit_prelude(name, email), r, 0) {
        Flow::Need(q) => Flow::Need(q),
        Flow::Failed(e) => Flow::Failed(e),
        Flow::Finished(_, _) => if run_result(r[3])->Ok_0.stdout.len() == 0 {
            Flow::Finished(CommitV::NothingToCommit, 4)
        } else {
            match script(commit_finish(msg), r.skip(4), 0) {
                Flow::Need(q) => Flow::Need(q),
                Flow::Failed(e) => Flow::Failed(e),
                Flow::Finished(_, _) => Flow::Finished(
                    CommitV::Created(trimmed(run_result(r[5])->Ok_0)),
                    6,
                ),
            }
        },
    }
}

fn identity_list(name: &str, email: &str) -> (v: Vec<Request>)
    ensures
        rvec(v@) == identity_reqs(name@, email@),
{
    let mut v: Vec<Request> = Vec::new();
    v.push(git4("config", "--local", "user.name", name));
    v.push(git4("config", "--local", "user.email", email));
    assert(rvec(v@) =~= identity_reqs(name@, email@));
    v
}

/// Saving a snapshot, against the replies from `at` on.
pub fn commit_progress(message: &str, name: &str, email: &str, replies: &[Reply], at: usize) -> (p:
    Progress<CommitOutcome>)
    requires
        at <= replies.len(),
    ensures
        progress_is(
            p,
            commit_flow(message@, name@, email@, replies@.skip(at as int)),
            |o: CommitOutcome| o.view(),
        ),
{
    let ghost r = replies@.skip(at as int);
    let mut pre = identity_list(name, email);
    pre.push(git2("add", "-A"));
    pre.push(git2("status", "--porcelain"));
    assert(rvec(pre@) =~= commit_prelude(name@, email@));
    match run_script(pre, replies, at) {
        Progress::Need(q) => {
            return Progress::Need(q);
        },
        Progress::Failed(e) => {
            return Progress::Failed(e);
        },
        Progress::Finished(_, _) => {},
    }
    proof {
        lemma_script_finished(commit_prelude(name@, email@), r, 0);
        assert(r[3] == replies@[at + 3]);
    }
    let status = output_at(replies, at + 3);
    if status.stdout.len() == 0 {
        return Progress::Finished(CommitOutcome::NothingToCommit, 4);
    }
    let mut fin: Vec<Request> = Vec::new();
    fin.push(git3("commit", "-m", message));
    fin.push(git2("rev-parse", "HEAD"));
    assert(rvec(fin@) =~= commit_finish(message@));
    assert(r.skip(4) == replies@.skip(at + 4));
    match run_script(fin, replies, at + 4) {
        Progress::Need(q) => {
            return Progress::Need(q);
        },
        Progress::Failed(e) => {
            return Progress::Failed(e);
        },
        Progress::Finished(_, _) => {},
    }
    proof {
        lemma_script_finished(commit_finish(message@), r.skip(4), 0);
        assert(r[5] == replies@[at + 5]);
        assert(r.skip(4)[1] == r[5]);
    }
    let rev = output_at(replies, at + 5);
    Progress::Finished(CommitOutcome::Created(trimmed_stdout(rev)), 6)
}

/// Saves a snapshot of the world: stages every change and commits it with
/// `message` under the given identity. `NothingToCommit` when nothing
/// changed since the last snapshot.
pub fn commit(message: &str, commit_name: &str, commit_email: &str, replies: &[Reply]) -> (s: Step<
    CommitOutcome,
    GitError,
>)
    ensures
        step_is(
            s,
            flow_step(commit_flow(message@, commit_name@, commit_email@, replies@)),
            |o: CommitOutcome| o.view(),
            |e: GitError| e.view(),
        ),
{
    assert(replies@.skip(0) == replies@);
    progress_step(commit_progress(message, commit_name, commit_email, replies, 0))
}

// ---------------------------------------------------------------------------
// Enabling versioning
// ---------------------------------------------------------------------------

/// The new text of `.git/info/exclude` so that `session.lock` is never
/// versioned, or `None` when some line already is exactly
/// `session.lock`: a missing final newline is added first.
pub open spec fn exclude_update(existing: Seq<char>) -> Option<Seq<char>> {
    if lines(existing).contains("session.lock"@) {
        None
    } else {
        let base = if existing.len() > 0 && existing.last() != '\n' {
            existing.push('\n')
        } else {
            existing
        };
        Some(base + "session.lock\n"@)
    }
}

/// The text of `.git/info/exclude` after `session.lock` is excluded.
pub fn exclude_session_lock(existing: &str) -> (r: Option<String>)
    ensures
        match r {
            Some(t) => exclude_update(existing@) == Some(t@),
            None => exclude_update(existing@) is None,
        },
{
    let cs = chars_of(existing);
    let ls = lines_of(cs.as_slice());
    let mut i: usize = 0;
    while i < ls.len()
        invariant
            i <= ls.len(),
            cvec(ls@) =~= lines(existing@),
            forall|j: int| 0 <= j < i ==> ls@[j]@ != "session.lock"@,
        decreases ls.len() - i,
    {
        if chars_equal_str(ls[i].as_slice(), "session.lock") {
            assert(lines(existing@)[i as int] == "session.lock"@);
            return None;
        }
        i = i + 1;
    }
    proof {
        if lines(existing@).contains("session.lock"@) {
            let j = choose|j: int| 0 <= j < lines(existing@).len() && lines(existing@)[j] == "session.lock"@;
            assert(ls@[j]@ == lines(existing@)[j]);
        }
    }
    let mut out = cs;
    if out.len() > 0 && out[out.len() - 1] != '\n' {
        out.push('\n');
    }
    append_str(&mut out, "session.lock\n");
    Some(string_of(out.as_slice()))
}

/// Enabling versioning: `git init` (safe on an existing repository), then
/// make sure `.git/info/exclude` excludes `session.lock`, writing it
/// only when it does not already. A failed write is reported as a failed
/// command with the write's message.
pub open spec fn init_flow(r: Seq<Reply>) -> StepV<(), GitErrV> {
    if r.len() == 0 {
        StepV::Ask(RequestV::Git(seq!["init"@]))
    } else {
        match run_result(r[0]) {
            Err(e) => StepV::Done(Err(e)),
            Ok(_) => if r.len() == 1 {
                StepV::Ask(RequestV::ReadExclude)
            } else {
                match r[1] {
                    Reply::Text(t) => match exclude_update(t@) {
                        None => StepV::Done(Ok(())),
                        Some(u) => if r.len() == 2 {
                            StepV::Ask(RequestV::WriteExclude(u))
                        } else {
                            match r[2] {
                                Reply::Written(Ok(())) => StepV::Done(Ok(())),
                                Reply::Written(Err(m)) => StepV::Done(Err(GitErrV::Failed(m@))),
                                _ => StepV::Done(Err(GitErrV::Spawn(mismatch_text()))),
                            }
                        },
                    },
                    _ => StepV::Done(Err(GitErrV::Spawn(mismatch_text()))),
                }
            },
        }
    }
}

/// Runs `git init` in the world folder and excludes `session.lock` from
/// versioning. Idempotent.
pub fn init(replies: &[Reply]) -> (s: Step<(), GitError>)
    ensures
        step_is(s, init_flow(replies@), |u: ()| u, |e: GitError| e.view()),
{
    if replies.len() == 0 {
        return Step::Ask(git1("init"));
    }
    match check_run(&replies[0]) {
        Err(e) => {
            return Step::Done(Err(e));
        },
        Ok(_) => {},
    }
    if replies.len() == 1 {
        return Step::Ask(Request::ReadExclude);
    }
    match &replies[1] {
        Reply::Text(t) => match exclude_session_lock(t.as_str()) {
            None => Step::Done(Ok(())),
            Some(u) => {
                if replies.len() == 2 {
                    return Step::Ask(Request::WriteExclude(u));
                }
                match &replies[2] {
                    Reply::Written(Ok(())) => Step::Done(Ok(())),
                    Reply::Written(Err(m)) => Step::Done(Err(GitError::CommandFailed(m.clone()))),
                    _ => Step::Done(Err(GitError::Spawn(string_lit("reply does not answer the request")))),
                }
            },
        },
        _ => Step::Done(Err(GitError::Spawn(string_lit("reply does not answer the request")))),
    }
}

// ---------------------------------------------------------------------------
// History
// ---------------------------------------------------------------------------

/// One saved snapshot, as read from `git log`.
#[derive(Debug, Clone, PartialEq, Eq)]
pub struct Snapshot {
    pub hash: String,
    pub date: String,
    pub message: String,
}

/// A snapshot as values: hash, date, message.
pub type SnapshotV = (Seq<char>, Seq<char>, Seq<char>);

/// The view of a snapshot.
pub open spec fn snapshot_view(s: Snapshot) -> SnapshotV {
    (s.hash@, s.date@, s.message@)
}

/// The views of snapshots.
pub open spec fn snapshots_view(v: Seq<Snapshot>) -> Seq<SnapshotV> {
    v.map_values(|s: Snapshot| snapshot_view(s))
}

/// The format `log` asks `git log` for: hash, author date, subject,
/// separated by the unit separator.
pub open spec fn log_format() -> Seq<char> {
    "--pretty=format:%H\x1f%aI\x1f%s"@
}

/// Snapshots from `git log` output lines: each line with at least two
/// separators gives hash, date and the rest as the message.
pub open spec fn log_snapshots(ls: Seq<Seq<char>>) -> Seq<SnapshotV> {
    records(ls, 3).map_values(|f: Seq<Seq<char>>| (f[0], f[1], f[2]))
}

/// Listing snapshots, most recent first: none for a folder that is not a
/// repository, or whose `git log` fails because it has no commits yet.
pub open spec fn log_flow(r: Seq<Reply>) -> StepV<Seq<SnapshotV>, GitErrV> {
    if r.len() == 0 {
        StepV::Ask(RequestV::IsRepository)
    } else {
        match r[0] {
            Reply::Flag(false) => StepV::Done(Ok(Seq::empty())),
            Reply::Flag(true) => if r.len() == 1 {
                StepV::Ask(RequestV::Git(seq!["log"@, log_format()]))
            } else {
                match raw_result(r[1]) {
                    Err(e) => StepV::Done(Err(e)),
                    Ok(o) => if o.success {
                        StepV::Done(Ok(log_snapshots(output_lines(o.stdout@))))
                    } else if contains_chars(utf8_lossy(o.stderr@), "does not have any commits yet"@) {
                        StepV::Done(Ok(Seq::empty()))
                    } else {
                        StepV::Done(Err(GitErrV::Failed(utf8_lossy(o.stderr@))))
                    },
                }
            },
            _ => StepV::Done(Err(GitErrV::Spawn(mismatch_text()))),
        }
    }
}

fn snapshots_of(o: &GitOutput) -> (v: Vec<Snapshot>)
    ensures
        snapshots_view(v@) == log_snapshots(output_lines(o.stdout@)),
{
    let recs = stdout_records(o, 3);
    let ghost rv = records(output_lines(o.stdout@), 3);
    let mut v: Vec<Snapshot> = Vec::new();
    let mut i: usize = 0;
    while i < recs.len()
        invariant
            i <= recs.len(),
            rv == records(output_lines(o.stdout@), 3),
            recs@.len() == rv.len(),
            forall|k: int| 0 <= k < recs@.len() ==> cvec(#[trigger] recs@[k]@) == rv[k],
            v@.len() == i,
            forall|k: int| 0 <= k < i ==> snapshot_view(#[trigger] v@[k]) == (rv[k][0], rv[k][1], rv[k][2]),
        decreases recs.len() - i,
    {
        proof {
            lemma_records_len(output_lines(o.stdout@), 3, i as int);
        }
        assert(cvec(recs@[i as int]@) == rv[i as int]);
        let f = &recs[i];
        let snap = Snapshot {
            hash: string_of(f[0].as_slice()),
            date: string_of(f[1].as_slice()),
            message: string_of(f[2].as_slice()),
        };
        v.push(snap);
        i = i + 1;
    }
    assert(snapshots_view(v@) =~= rv.map_values(|f: Seq<Seq<char>>| (f[0], f[1], f[2])));
    v
}

/// Every record of `n` fields has `n` fields.
pub proof fn lemma_records_len(ls: Seq<Seq<char>>, n: nat, k: int)
    requires
        n >= 1,
        0 <= k < records(ls, n).len(),
    ensures
        records(ls, n)[k].len() == n,
    decreases ls.len(),
{
    if ls.len() > 0 {
        let prev = records(ls.drop_last(), n);
        lemma_split_fields_len(ls.last(), n, '\x1f');
        if k < prev.len() {
            lemma_records_len(ls.drop_last(), n, k);
        }
    }
}

/// The view of a list of snapshots.
pub open spec fn snapshots_fn() -> spec_fn(Vec<Snapshot>) -> Seq<SnapshotV> {
    |v: Vec<Snapshot>| snapshots_view(v@)
}

/// Lists every snapshot saved for the world, most recent first. A world
/// never versioned, or versioned but without any snapshot yet, has none.
pub fn log(replies: &[Reply]) -> (s: Step<Vec<Snapshot>, GitError>)
    ensures
        step_is(s, log_flow(replies@), snapshots_fn(), |e: GitError| e.view()),
{
    if replies.len() == 0 {
        return Step::Ask(Request::IsRepository);
    }
    match &replies[0] {
        Reply::Flag(false) => {
            let v: Vec<Snapshot> = Vec::new();
            assert(snapshots_view(v@) =~= Seq::<SnapshotV>::empty());
            Step::Done(Ok(v))
        },
        Reply::Flag(true) => {
            if replies.len() == 1 {
                return Step::Ask(git2("log", "--pretty=format:%H\x1f%aI\x1f%s"));
            }
            match check_raw(&replies[1]) {
                Err(e) => Step::Done(Err(e)),
                Ok(o) => {
                    if o.success {
                        Step::Done(Ok(snapshots_of(o)))
                    } else {
                        let err = lossy_text(o.stderr.as_slice());
                        let ec = chars_of(err.as_str());
                        if contains_str(ec.as_slice(), "does not have any commits yet") {
                            let v: Vec<Snapshot> = Vec::new();
                            assert(snapshots_view(v@) =~= Seq::<SnapshotV>::empty());
                            Step::Done(Ok(v))
                        } else {
                            Step::Done(Err(GitError::CommandFailed(err)))
                        }
                    }
                },
            }
        },
        _ => Step::Done(Err(GitError::Spawn(string_lit("reply does not answer the request")))),
    }
}

// ---------------------------------------------------------------------------
// Branches
// ---------------------------------------------------------------------------

/// The name of the branch `HEAD` points to (`branch --show-current`,
/// trimmed); works before the first commit.
pub open spec fn current_branch_flow(r: Seq<Reply>) -> Flow<Seq<char>> {
    match script(seq![RequestV::Git(seq!["branch"@, "--show-current"@])], r, 0) {
        Flow::Need(q) => Flow::Need(q),
        Flow::Failed(e) => Flow::Failed(e),
        Flow::Finished(_, _) => Flow::Finished(trimmed(run_result(r[0])->Ok_0), 1),
    }
}

/// The name of the current branch, against the replies from `at` on.
pub fn current_branch_progress(replies: &[Reply], at: usize) -> (p: Progress<String>)
    requires
        at <= replies.len(),
    ensures
        progress_is(p, current_branch_flow(replies@.skip(at as int)), |b: String| b@),
{
    let ghost r = replies@.skip(at as int);
    let mut reqs: Vec<Request> = Vec::new();
    reqs.push(git2("branch", "--show-current"));
    assert(rvec(reqs@) =~= seq![RequestV::Git(seq!["branch"@, "--show-current"@])]);
    match run_script(reqs, replies, at) {
        Progress::Need(q) => {
            return Progress::Need(q);
        },
        Progress::Failed(e) => {
            return Progress::Failed(e);
        },
        Progress::Finished(_, _) => {},
    }
    proof {
        lemma_script_finished(seq![RequestV::Git(seq!["branch"@, "--show-current"@])], r, 0);
        assert(r[0] == replies@[at as int]);
    }
    let o = output_at(replies, at);
    Progress::Finished(trimmed_stdout(o), 1)
}

/// The name of the branch `HEAD` currently points to.
pub fn current_branch(replies: &[Reply]) -> (s: Step<String, GitError>)
    ensures
        step_is(s, flow_step(current_branch_flow(replies@)), |b: String| b@, |e: GitError| e.view()),
{
    assert(replies@.skip(0) == replies@);
    progress_step(current_branch_progress(replies, 0))
}

/// The trimmed, non-empty lines, in order.
pub open spec fn branch_names(ls: Seq<Seq<char>>) -> Seq<Seq<char>>
    decreases ls.len(),
{
    if ls.len() == 0 {
        Seq::empty()
    } else {
        let prev = branch_names(ls.drop_last());
        let t = trim(ls.last());
        if t.len() == 0 {
            prev
        } else {
            prev.push(t)
        }
    }
}

/// Every branch of the repository (`branch --format=%(refname:short)`,
/// each line trimmed, empty lines dropped).
pub open spec fn list_branches_flow(r: Seq<Reply>) -> StepV<Seq<Seq<char>>, GitErrV> {
    match script(seq![RequestV::Git(seq!["branch"@, "--format=%(refname:short)"@])], r, 0) {
        Flow::Need(q) => StepV::Ask(q),
        Flow::Failed(e) => StepV::Done(Err(e)),
        Flow::Finished(_, _) => StepV::Done(Ok(branch_names(output_lines(run_result(r[0])->Ok_0.stdout@)))),
    }
}

/// The views of strings, as a function.
pub open spec fn strings_fn() -> spec_fn(Vec<String>) -> Seq<Seq<char>> {
    |v: Vec<String>| v@.map_values(|s: String| s@)
}

/// Every branch that exists in the repository.
pub fn list_branches(replies: &[Reply]) -> (s: Step<Vec<String>, GitError>)
    ensures
        step_is(s, list_branches_flow(replies@), strings_fn(), |e: GitError| e.view()),
{
    let mut reqs: Vec<Request> = Vec::new();
    reqs.push(git2("branch", "--format=%(refname:short)"));
    assert(rvec(reqs@) =~= seq![RequestV::Git(seq!["branch"@, "--format=%(refname:short)"@])]);
    assert(replies@.skip(0) == replies@);
    match run_script(reqs, replies, 0) {
        Progress::Need(q) => {
            return Step::Ask(q);
        },
        Progress::Failed(e) => {
            return Step::Done(Err(e));
        },
        Progress::Finished(_, _) => {},
    }
    proof {
        lemma_script_finished(seq![RequestV::Git(seq!["branch"@, "--format=%(refname:short)"@])], replies@, 0);
    }
    let o = output_at(replies, 0);
    let ls = stdout_lines(o);
    let ghost lv = cvec(ls@);
    let mut out: Vec<String> = Vec::new();
    let mut i: usize = 0;
    while i < ls.len()
        invariant
            i <= ls.len(),
            lv == cvec(ls@),
            out@.map_values(|s: String| s@) == branch_names(lv.take(i as int)),
        decreases ls.len() - i,
    {
        proof {
            assert(lv.take(i + 1).drop_last() == lv.take(i as int));
            assert(lv.take(i + 1).last() == ls@[i as int]@);
        }
        let t = trim_chars(ls[i].as_slice());
        if t.len() > 0 {
            let ghost before = out@;
            out.push(string_of(t.as_slice()));
            assert(out@.map_values(|s: String| s@) == before.map_values(|s: String| s@).push(t@));
        }
        i = i + 1;
    }
    assert(lv.take(ls.len() as int) == lv);
    Step::Done(Ok(out))
}

/// Creates `name` as a new branch at the current commit and switches to
/// it (`checkout -b`); `git` itself validates the name.
pub open spec fn create_branch_flow(name: Seq<char>, r: Seq<Reply>) -> StepV<(), GitErrV> {
    flow_step(script(seq![RequestV::Git(seq!["checkout"@, "-b"@, name])], r, 0))
}

/// Creates `name` as a new branch and switches to it in one step.
pub fn create_branch(name: &str, replies: &[Reply]) -> (s: Step<(), GitError>)
    ensures
        step_is(s, create_branch_flow(name@, replies@), |u: ()| u, |e: GitError| e.view()),
{
    let mut reqs: Vec<Request> = Vec::new();
    reqs.push(git3("checkout", "-b", name));
    assert(rvec(reqs@) =~= seq![RequestV::Git(seq!["checkout"@, "-b"@, name@])]);
    assert(replies@.skip(0) == replies@);
    progress_step(run_script(reqs, replies, 0))
}

// ---------------------------------------------------------------------------
// Operations refused while the world is open
// ---------------------------------------------------------------------------

/// Why an operation that rewrites the world's files stopped.
pub enum GuardErrV {
    WorldCurrentlyOpen,
    AlreadyInProgress,
    Io(Seq<char>),
    Git(GitErrV),
}

/// Why a restore stopped.
#[derive(Debug, Clone, PartialEq, Eq)]
pub enum RestoreError {
    /// The world is open in Minecraft.
    WorldCurrentlyOpen,
    /// Checking whether it is open failed (the I/O error's message).
    Io(String),
    Git(GitError),
}

/// Why deleting a snapshot stopped.
#[derive(Debug, Clone, PartialEq, Eq)]
pub enum DeleteError {
    WorldCurrentlyOpen,
    Io(String),
    Git(GitError),
}

/// Why switching branches stopped.
#[derive(Debug, Clone, PartialEq, Eq)]
pub enum BranchError {
    WorldCurrentlyOpen,
    Io(String),
    Git(GitError),
}

impl RestoreError {
    pub open spec fn view(self) -> GuardErrV {
        match self {
            RestoreError::WorldCurrentlyOpen => GuardErrV::WorldCurrentlyOpen,
            RestoreError::Io(m) => GuardErrV::Io(m@),
            RestoreError::Git(e) => GuardErrV::Git(e.view()),
        }
    }
}

impl DeleteError {
    pub open spec fn view(self) -> GuardErrV {
        match self {
            DeleteError::WorldCurrentlyOpen => GuardErrV::WorldCurrentlyOpen,
            DeleteError::Io(m) => GuardErrV::Io(m@),
            DeleteError::Git(e) => GuardErrV::Git(e.view()),
        }
    }
}

impl BranchError {
    pub open spec fn view(self) -> GuardErrV {
        match self {
            BranchError::WorldCurrentlyOpen => GuardErrV::WorldCurrentlyOpen,
            BranchError::Io(m) => GuardErrV::Io(m@),
            BranchError::Git(e) => GuardErrV::Git(e.view()),
        }
    }
}

/// What the answer to `IsOpen` at `r[0]` decides: `None` to go on (the
/// world is closed), otherwise the error to stop with.
pub open spec fn open_gate(r: Seq<Reply>) -> Option<GuardErrV> {
    match r[0] {
        Reply::Open(Ok(false)) => None,
        Reply::Open(Ok(true)) => Some(GuardErrV::WorldCurrentlyOpen),
        Reply::Open(Err(m)) => Some(GuardErrV::Io(m@)),
        _ => Some(GuardErrV::Git(GitErrV::Spawn(mismatch_text()))),
    }
}

/// A part of an operation, as the operation's next move with git errors
/// wrapped; `None` when the part finished.
pub open spec fn guarded<T, U>(f: Flow<T>) -> Option<StepV<U, GuardErrV>> {
    match f {
        Flow::Need(q) => Some(StepV::Ask(q)),
        Flow::Failed(e) => Some(StepV::Done(Err(GuardErrV::Git(e)))),
        Flow::Finished(_, _) => None,
    }
}

/// The answer to `IsOpen` at `replies[0]`: `None` when the world is
/// closed, otherwise the refusal (open, I/O error, or a mismatched reply).
fn open_gate_exec(replies: &[Reply]) -> (r: Option<Result<bool, String>>)
    requires
        replies.len() > 0,
    ensures
        match r {
            None => open_gate(replies@) is None,
            Some(Ok(true)) => open_gate(replies@) == Some(GuardErrV::WorldCurrentlyOpen),
            Some(Ok(false)) => open_gate(replies@) == Some(GuardErrV::Git(GitErrV::Spawn(mismatch_text()))),
            Some(Err(m)) => open_gate(replies@) == Some(GuardErrV::Io(m@)),
        },
{
    match &replies[0] {
        Reply::Open(Ok(false)) => None,
        Reply::Open(Ok(true)) => Some(Ok(true)),
        Reply::Open(Err(m)) => Some(Err(m.clone())),
        _ => Some(Ok(false)),
    }
}

/// A restore's outcome: whether the safety snapshot before it and the
/// snapshot recording it created commits.
#[derive(Debug, Clone, PartialEq, Eq)]
pub struct RestoreOutcome {
    pub backup: CommitOutcome,
    pub restore: CommitOutcome,
}

/// The first seven bytes of a commit hash (all of it when shorter), as
/// the characters that make them up.
pub open spec fn short_hash(h: Seq<char>) -> Seq<char> {
    chars_within(h, 7)
}

/// Restoring the world to `hash`, never destructively: refuse while the
/// world is open; save what is pending as "Backup before restoring";
/// make the index and the files exactly those of `hash` (`restore
/// --source <hash> --staged --worktree -- .`, which also removes files
/// added since); record the result as "Restored to <short hash>".
pub open spec fn restore_flow(hash: Seq<char>, name: Seq<char>, email: Seq<char>, r: Seq<Reply>) -> StepV<
    (CommitV, CommitV),
    GuardErrV,
> {
    if r.len() == 0 {
        StepV::Ask(RequestV::IsOpen)
    } else if open_gate(r) is Some {
        StepV::Done(Err(open_gate(r)->0))
    } else {
        let f1 = commit_flow("Backup before restoring"@, name, email, r.skip(1));
        match f1 {
            Flow::Finished(backup, n1) => {
                let f2 = script(seq![RequestV::Git(seq!["restore"@, "--source"@, hash, "--staged"@, "--worktree"@, "--"@, "."@])], r.skip(1 + n1 as int), 0);
                match f2 {
                    Flow::Finished(_, _) => {
                        let f3 = commit_flow("Restored to "@ + short_hash(hash), name, email, r.skip(2 + n1 as int));
                        match f3 {
                            Flow::Finished(restored, _) => StepV::Done(Ok((backup, restored))),
                            _ => guarded(f3)->0,
                        }
                    },
                    _ => guarded(f2)->0,
                }
            },
            _ => guarded(f1)->0,
        }
    }
}

proof fn lemma_commit_used(msg: Seq<char>, name: Seq<char>, email: Seq<char>, r: Seq<Reply>)
    ensures
        commit_flow(msg, name, email, r) matches Flow::Finished(_, n) ==> (n == 4 || n == 6) && n <= r.len(),
{
    lemma_script_finished_any(commit_prelude(name, email), r);
    if r.len() >= 4 {
        lemma_script_finished_any(commit_finish(msg), r.skip(4));
    }
}

proof fn lemma_script_finished_any(reqs: Seq<RequestV>, r: Seq<Reply>)
    ensures
        script(reqs, r, 0) is Finished ==> reqs.len() <= r.len(),
{
    if script(reqs, r, 0) is Finished {
        lemma_script_finished(reqs, r, 0);
    }
}

/// The restore message for `hash`.
fn restored_message(hash: &str) -> (m: String)
    ensures
        m@ == "Restored to "@ + short_hash(hash@),
{
    let h = chars_of(hash);
    let short = chars_within_exec(h.as_slice(), 7);
    let mut m = chars_of("Restored to ");
    append_chars(&mut m, short.as_slice());
    assert(short@ == short_hash(hash@));
    string_of(m.as_slice())
}

/// Converts a part's progress into the operation's move, with git
/// errors wrapped as `wrap` says.
fn guard_restore<T>(p: Progress<T>) -> (s: Option<Step<RestoreOutcome, RestoreError>>)
    ensures
        match p {
            Progress::Need(q) => s == Some(Step::<RestoreOutcome, RestoreError>::Ask(q)),
            Progress::Failed(e) => s == Some(Step::<RestoreOutcome, RestoreError>::Done(Err(RestoreError::Git(e)))),
            Progress::Finished(_, _) => s is None,
        },
{
    match p {
        Progress::Need(q) => Some(Step::Ask(q)),
        Progress::Failed(e) => Some(Step::Done(Err(RestoreError::Git(e)))),
        Progress::Finished(_, _) => None,
    }
}

/// The view of a restore outcome.
pub open spec fn restore_view(o: RestoreOutcome) -> (CommitV, CommitV) {
    (o.backup.view(), o.restore.view())
}

/// Restores the world to the state it had at `commit_hash`, never
/// rewriting history: a backup snapshot of what is pending is taken
/// first, and the restored state is itself recorded as a new snapshot,
/// named by the first seven bytes of `commit_hash`, which must not split
/// a character. Refused while the world is open in Minecraft.
pub fn restore(commit_hash: &str, commit_name: &str, commit_email: &str, replies: &[Reply]) -> (s: Step<
    RestoreOutcome,
    RestoreError,
>)
    requires
        byte_cut_ok(commit_hash@, 7),
    ensures
        step_is(
            s,
            restore_flow(commit_hash@, commit_name@, commit_email@, replies@),
            |o: RestoreOutcome| restore_view(o),
            |e: RestoreError| e.view(),
        ),
{
    if replies.len() == 0 {
        return Step::Ask(Request::IsOpen);
    }
    match open_gate_exec(replies) {
        None => {},
        Some(Ok(true)) => {
            return Step::Done(Err(RestoreError::WorldCurrentlyOpen));
        },
        Some(Ok(false)) => {
            return Step::Done(
                Err(RestoreError::Git(GitError::Spawn(string_lit("reply does not answer the request")))),
            );
        },
        Some(Err(m)) => {
            return Step::Done(Err(RestoreError::Io(m)));
        },
    }
    let ghost r = replies@;
    let p1 = commit_progress("Backup before restoring", commit_name, commit_email, replies, 1);
    let (backup, n1) = match p1 {
        Progress::Finished(o, n) => (o, n),
        other => {
            return guard_restore(other).unwrap();
        },
    };
    proof {
        lemma_commit_used("Backup before restoring"@, commit_name@, commit_email@, r.skip(1));
        assert(r.skip(1).skip(n1 as int) == r.skip(1 + n1));
    }
    let mut reqs: Vec<Request> = Vec::new();
    reqs.push(git7("restore", "--source", commit_hash, "--staged", "--worktree", "--", "."));
    assert(rvec(reqs@) =~= seq![RequestV::Git(seq!["restore"@, "--source"@, commit_hash@, "--staged"@, "--worktree"@, "--"@, "."@])]);
    match run_script(reqs, replies, 1 + n1) {
        Progress::Finished(_, _) => {},
        other => {
            return guard_restore(other).unwrap();
        },
    }
    proof {
        lemma_script_finished(seq![RequestV::Git(seq!["restore"@, "--source"@, commit_hash@, "--staged"@, "--worktree"@, "--"@, "."@])], r.skip(1 + n1 as int), 0);
    }
    let msg = restored_message(commit_hash);
    let p3 = commit_progress(msg.as_str(), commit_name, commit_email, replies, 2 + n1);
    match p3 {
        Progress::Finished(restored, _) => Step::Done(Ok(RestoreOutcome { backup, restore: restored })),
        other => guard_restore(other).unwrap(),
    }
}

/// A branch switch's outcome: whether pending changes were checkpointed
/// first, and the branch now current.
#[derive(Debug, Clone, PartialEq, Eq)]
pub struct SwitchOutcome {
    pub checkpoint: CommitOutcome,
    pub branch: String,
}

/// Switching to branch `name`: refuse while the world is open; save what
/// is pending as "Checkpoint before switching branches"; `checkout
/// <name>`.
pub open spec fn switch_branch_flow(name: Seq<char>, cname: Seq<char>, email: Seq<char>, r: Seq<Reply>) -> StepV<
    (CommitV, Seq<char>),
    GuardErrV,
> {
    if r.len() == 0 {
        StepV::Ask(RequestV::IsOpen)
    } else if open_gate(r) is Some {
        StepV::Done(Err(open_gate(r)->0))
    } else {
        let f1 = commit_flow("Checkpoint before switching branches"@, cname, email, r.skip(1));
        match f1 {
            Flow::Finished(cp, n1) => {
                let f2 = script(seq![RequestV::Git(seq!["checkout"@, name])], r.skip(1 + n1 as int), 0);
                match f2 {
                    Flow::Finished(_, _) => StepV::Done(Ok((cp, name))),
                    _ => guarded(f2)->0,
                }
            },
            _ => guarded(f1)->0,
        }
    }
}

fn guard_branch<T>(p: Progress<T>) -> (s: Option<Step<SwitchOutcome, BranchError>>)
    ensures
        match p {
            Progress::Need(q) => s == Some(Step::<SwitchOutcome, BranchError>::Ask(q)),
            Progress::Failed(e) => s == Some(Step::<SwitchOutcome, BranchError>::Done(Err(BranchError::Git(e)))),
            Progress::Finished(_, _) => s is None,
        },
{
    match p {
        Progress::Need(q) => Some(Step::Ask(q)),
        Progress::Failed(e) => Some(Step::Done(Err(BranchError::Git(e)))),
        Progress::Finished(_, _) => None,
    }
}

/// The view of a switch outcome.
pub open spec fn switch_view(o: SwitchOutcome) -> (CommitV, Seq<char>) {
    (o.checkpoint.view(), o.branch@)
}

/// Switches the world to branch `name`. Refused while the world is open;
/// whatever is pending on the current branch is saved first.
pub fn switch_branch(name: &str, commit_name: &str, commit_email: &str, replies: &[Reply]) -> (s: Step<
    SwitchOutcome,
    BranchError,
>)
    ensures
        step_is(
            s,
            switch_branch_flow(name@, commit_name@, commit_email@, replies@),
            |o: SwitchOutcome| switch_view(o),
            |e: BranchError| e.view(),
        ),
{
    if replies.len() == 0 {
        return Step::Ask(Request::IsOpen);
    }
    match open_gate_exec(replies) {
        None => {},
        Some(Ok(true)) => {
            return Step::Done(Err(BranchError::WorldCurrentlyOpen));
        },
        Some(Ok(false)) => {
            return Step::Done(
                Err(BranchError::Git(GitError::Spawn(string_lit("reply does not answer the request")))),
            );
        },
        Some(Err(m)) => {
            return Step::Done(Err(BranchError::Io(m)));
        },
    }
    let ghost r = replies@;
    let p1 = commit_progress("Checkpoint before switching branches", commit_name, commit_email, replies, 1);
    let (cp, n1) = match p1 {
        Progress::Finished(o, n) => (o, n),
        other => {
            return guard_branch(other).unwrap();
        },
    };
    proof {
        lemma_commit_used("Checkpoint before switching branches"@, commit_name@, commit_email@, r.skip(1));
        assert(r.skip(1).skip(n1 as int) == r.skip(1 + n1));
    }
    let mut reqs: Vec<Request> = Vec::new();
    reqs.push(git2("checkout", name));
    assert(rvec(reqs@) =~= seq![RequestV::Git(seq!["checkout"@, name@])]);
    match run_script(reqs, replies, 1 + n1) {
        Progress::Finished(_, _) => Step::Done(Ok(SwitchOutcome { checkpoint: cp, branch: string_lit(name) })),
        other => guard_branch(other).unwrap(),
    }
}

// ---------------------------------------------------------------------------
// Deleting a snapshot
// ---------------------------------------------------------------------------

/// What `delete_snapshot` reads before rebuilding: `HEAD`, the deleted
/// commit's parents, and every commit after it (oldest first) as tree,
/// author date, committer date and subject.
pub open spec fn delete_reads(hash: Seq<char>) -> Seq<RequestV> {
    seq![
        RequestV::Git(seq!["rev-parse"@, "HEAD"@]),
        RequestV::Git(seq!["log"@, "--format=%P"@, "-1"@, hash]),
        RequestV::Git(seq!["log"@, "--reverse"@, "--format=%T\x1f%aI\x1f%cI\x1f%s"@, hash + ".."@ + "HEAD"@]),
    ]
}

/// The `commit-tree` invocation that recreates a descendant (tree,
/// author date, committer date, subject) under `parent`, keeping its
/// dates.
pub open spec fn rebuild_req(d: Seq<Seq<char>>, parent: Option<Seq<char>>) -> RequestV {
    RequestV::GitWithDates(
        seq!["commit-tree"@, d[0]] + match parent {
            Some(p) => seq!["-p"@, p],
            None => Seq::empty(),
        } + seq!["-m"@, d[3]],
        d[1],
        d[2],
    )
}

/// Rebuilding the descendants from the `k`-th on, each under the
/// previous one's new commit (the first under `parent`); finishes with
/// the last new commit, after one reply per descendant.
pub open spec fn rebuild_chain(ds: Seq<Seq<Seq<char>>>, r: Seq<Reply>, k: int, parent: Option<Seq<char>>) -> Flow<
    Option<Seq<char>>,
>
    decreases ds.len() - k,
{
    if k >= ds.len() {
        Flow::Finished(parent, ds.len())
    } else if k >= r.len() {
        Flow::Need(rebuild_req(ds[k], parent))
    } else {
        match run_result(r[k]) {
            Err(e) => Flow::Failed(e),
            Ok(o) => rebuild_chain(ds, r, k + 1, Some(trimmed(o))),
        }
    }
}

/// The ref of branch `b`.
pub open spec fn branch_ref(b: Seq<char>) -> Seq<char> {
    "refs/heads/"@ + b
}

/// Deleting snapshot `hash`, rewriting only what follows it: refuse while
/// the world is open; read `HEAD`, the parent and the descendants;
/// recreate each descendant with its own tree and dates under the
/// previous new commit (the first under the deleted commit's parent, or
/// as a new root); point the current branch at the last new commit (or
/// delete the branch when nothing is left); and when the deleted commit
/// was the tip and something is left, `reset --hard` so the files match.
pub open spec fn delete_flow(hash: Seq<char>, r: Seq<Reply>) -> StepV<(), GuardErrV> {
    if r.len() == 0 {
        StepV::Ask(RequestV::IsOpen)
    } else if open_gate(r) is Some {
        StepV::Done(Err(open_gate(r)->0))
    } else {
        let f1 = script(delete_reads(hash), r.skip(1), 0);
        match f1 {
            Flow::Finished(_, _) => {
                let head = trimmed(run_result(r[1])->Ok_0);
                let parent = trimmed(run_result(r[2])->Ok_0);
                let ds = records(output_lines(run_result(r[3])->Ok_0.stdout@), 4);
                let p0 = if parent.len() == 0 {
                    None
                } else {
                    Some(parent)
                };
                let f2 = rebuild_chain(ds, r.skip(4), 0, p0);
                match f2 {
                    Flow::Finished(tip, _) => {
                        let at: int = 4 + ds.len() as int;
                        let f3 = script(seq![RequestV::Git(seq!["rev-parse"@, "--abbrev-ref"@, "HEAD"@])], r.skip(at), 0);
                        match f3 {
                            Flow::Finished(_, _) => {
                                let branch = trimmed(run_result(r[at])->Ok_0);
                                let upd = match tip {
                                    Some(t) => RequestV::Git(seq!["update-ref"@, branch_ref(branch), t]),
                                    None => RequestV::Git(seq!["update-ref"@, "-d"@, branch_ref(branch)]),
                                };
                                let f4 = script(seq![upd], r.skip(at + 1), 0);
                                match f4 {
                                    Flow::Finished(_, _) => if hash == head && tip is Some {
                                        let f5 = script(seq![RequestV::Git(seq!["reset"@, "--hard"@])], r.skip(at + 2), 0);
                                        match f5 {
                                            Flow::Finished(_, _) => StepV::Done(Ok(())),
                                            _ => guarded(f5)->0,
                                        }
                                    } else {
                                        StepV::Done(Ok(()))
                                    },
                                    _ => guarded(f4)->0,
                                }
                            },
                            _ => guarded(f3)->0,
                        }
                    },
                    _ => guarded(f2)->0,
                }
            },
            _ => guarded(f1)->0,
        }
    }
}

fn guard_delete<T>(p: Progress<T>) -> (s: Option<Step<(), DeleteError>>)
    ensures
        match p {
            Progress::Need(q) => s == Some(Step::<(), DeleteError>::Ask(q)),
            Progress::Failed(e) => s == Some(Step::<(), DeleteError>::Done(Err(DeleteError::Git(e)))),
            Progress::Finished(_, _) => s is None,
        },
{
    match p {
        Progress::Need(q) => Some(Step::Ask(q)),
        Progress::Failed(e) => Some(Step::Done(Err(DeleteError::Git(e)))),
        Progress::Finished(_, _) => None,
    }
}

/// A string from characters and literals.
fn concat3(a: &str, b: &str, c: &str) -> (r: String)
    ensures
        r@ == a@ + b@ + c@,
{
    let mut v = chars_of(a);
    append_str(&mut v, b);
    append_str(&mut v, c);
    string_of(v.as_slice())
}

/// The `commit-tree` request recreating descendant `d` under `parent`.
fn rebuild_request(d: &Vec<Vec<char>>, parent: &Option<String>) -> (q: Request)
    requires
        d.len() == 4,
    ensures
        q.view() == rebuild_req(cvec(d@), match parent {
            Some(p) => Some(p@),
            None => None,
        }),
{
    let mut args: Vec<String> = Vec::new();
    args.push(string_lit("commit-tree"));
    args.push(string_of(d[0].as_slice()));
    match parent {
        Some(p) => {
            args.push(string_lit("-p"));
            args.push(p.clone());
        },
        None => {},
    }
    args.push(string_lit("-m"));
    args.push(string_of(d[3].as_slice()));
    let q = Request::GitWithDates(args, string_of(d[1].as_slice()), string_of(d[2].as_slice()));
    proof {
        let dv = cvec(d@);
        let mid = match parent {
            Some(p) => seq!["-p"@, p@],
            None => Seq::<Seq<char>>::empty(),
        };
        assert(crate::git::protocol::svec(args@) =~= seq!["commit-tree"@, dv[0]] + mid + seq!["-m"@, dv[3]]);
    }
    q
}

/// Deletes snapshot `commit_hash` from the history: every later snapshot
/// is recreated with its exact files and dates on top of what preceded
/// the deleted one, so no merge or conflict can happen. If the deleted
/// snapshot was the current tip, the world's files are reset to the new
/// tip. Refused while the world is open in Minecraft.
pub fn delete_snapshot(commit_hash: &str, replies: &[Reply]) -> (s: Step<(), DeleteError>)
    ensures
        step_is(s, delete_flow(commit_hash@, replies@), |u: ()| u, |e: DeleteError| e.view()),
{
    if replies.len() == 0 {
        return Step::Ask(Request::IsOpen);
    }
    match open_gate_exec(replies) {
        None => {},
        Some(Ok(true)) => {
            return Step::Done(Err(DeleteError::WorldCurrentlyOpen));
        },
        Some(Ok(false)) => {
            return Step::Done(
                Err(DeleteError::Git(GitError::Spawn(string_lit("reply does not answer the request")))),
            );
        },
        Some(Err(m)) => {
            return Step::Done(Err(DeleteError::Io(m)));
        },
    }
    let ghost r = replies@;
    let mut reads: Vec<Request> = Vec::new();
    reads.push(git2("rev-parse", "HEAD"));
    reads.push(git4("log", "--format=%P", "-1", commit_hash));
    let range = concat3(commit_hash, "..", "HEAD");
    reads.push(git4("log", "--reverse", "--format=%T\x1f%aI\x1f%cI\x1f%s", range.as_str()));
    assert(rvec(reads@) =~= delete_reads(commit_hash@));
    match run_script(reads, replies, 1) {
        Progress::Finished(_, _) => {},
        other => {
            return guard_delete(other).unwrap();
        },
    }
    proof {
        lemma_script_finished(delete_reads(commit_hash@), r.skip(1), 0);
        assert(r.skip(1)[0] == r[1]);
        assert(r.skip(1)[1] == r[2]);
        assert(r.skip(1)[2] == r[3]);
    }
    let head = trimmed_stdout(output_at(replies, 1));
    let parent = trimmed_stdout(output_at(replies, 2));
    let ds = stdout_records(output_at(replies, 3), 4);
    let ghost dsv = records(output_lines(run_result(r[3])->Ok_0.stdout@), 4);
    let mut tip: Option<String> = if parent.as_str().is_empty() {
        None
    } else {
        Some(parent)
    };
    let ghost p0 = if trimmed(run_result(r[2])->Ok_0).len() == 0 {
        None
    } else {
        Some(trimmed(run_result(r[2])->Ok_0))
    };
    let mut k: usize = 0;
    while k < ds.len()
        invariant
            k <= ds.len(),
            r == replies@,
            4 + k <= replies.len(),
            open_gate(r) is None,
            script(delete_reads(commit_hash@), r.skip(1), 0) is Finished,
            head@ == trimmed(run_result(r[1])->Ok_0),
            dsv == records(output_lines(run_result(r[3])->Ok_0.stdout@), 4),
            p0 == (if trimmed(run_result(r[2])->Ok_0).len() == 0 {
                None
            } else {
                Some(trimmed(run_result(r[2])->Ok_0))
            }),
            ds@.len() == dsv.len(),
            forall|j: int| 0 <= j < ds@.len() ==> cvec(#[trigger] ds@[j]@) == dsv[j],
            rebuild_chain(dsv, r.skip(4), 0, p0) == rebuild_chain(dsv, r.skip(4), k as int, match tip {
                Some(t) => Some(t@),
                None => None,
            }),
        decreases ds.len() - k,
    {
        proof {
            lemma_records_len(output_lines(run_result(r[3])->Ok_0.stdout@), 4, k as int);
        }
        assert(ds@[k as int].len() == 4);
        if k >= replies.len() - 4 {
            let q = rebuild_request(&ds[k], &tip);
            return Step::Ask(q);
        }
        assert(r.skip(4)[k as int] == r[4 + k]);
        let new_tip = match check_run(&replies[4 + k]) {
            Err(e) => {
                return Step::Done(Err(DeleteError::Git(e)));
            },
            Ok(o) => trimmed_stdout(o),
        };
        tip = Some(new_tip);
        k = k + 1;
    }
    let at = 4 + ds.len();
    let mut q3: Vec<Request> = Vec::new();
    q3.push(git3("rev-parse", "--abbrev-ref", "HEAD"));
    assert(rvec(q3@) =~= seq![RequestV::Git(seq!["rev-parse"@, "--abbrev-ref"@, "HEAD"@])]);
    match run_script(q3, replies, at) {
        Progress::Finished(_, _) => {},
        other => {
            return guard_delete(other).unwrap();
        },
    }
    proof {
        lemma_script_finished(seq![RequestV::Git(seq!["rev-parse"@, "--abbrev-ref"@, "HEAD"@])], r.skip(at as int), 0);
        assert(r.skip(at as int)[0] == r[at as int]);
    }
    let branch = trimmed_stdout(output_at(replies, at));
    let mut bchars = chars_of("refs/heads/");
    append_str(&mut bchars, branch.as_str());
    let bref = string_of(bchars.as_slice());
    assert(bref@ == branch_ref(branch@));
    let upd = match &tip {
        Some(t) => git3("update-ref", bref.as_str(), t.as_str()),
        None => git3("update-ref", "-d", bref.as_str()),
    };
    let ghost tipv = match &tip {
        Some(t) => Some(t@),
        None => None::<Seq<char>>,
    };
    let ghost updv = match tipv {
        Some(t) => RequestV::Git(seq!["update-ref"@, branch_ref(branch@), t]),
        None => RequestV::Git(seq!["update-ref"@, "-d"@, branch_ref(branch@)]),
    };
    assert(upd.view() == updv);
    let mut q4: Vec<Request> = Vec::new();
    q4.push(upd);
    assert(rvec(q4@) =~= seq![updv]);
    proof {
        assert(rebuild_chain(dsv, r.skip(4), 0, p0) == Flow::Finished(tipv, dsv.len()));
        assert(branch@ == trimmed(run_result(r[at as int])->Ok_0));
    }
    match run_script(q4, replies, at + 1) {
        Progress::Finished(_, _) => {},
        other => {
            return guard_delete(other).unwrap();
        },
    }
    if crate::text::str_equals(commit_hash, head.as_str()) && tip.is_some() {
        proof {
            lemma_script_finished_any(seq![updv], r.skip(at + 1));
        }
        let mut q5: Vec<Request> = Vec::new();
        q5.push(git2("reset", "--hard"));
        assert(rvec(q5@) =~= seq![RequestV::Git(seq!["reset"@, "--hard"@])]);
        match run_script(q5, replies, at + 2) {
            Progress::Finished(_, _) => Step::Done(Ok(())),
            other => guard_delete(other).unwrap(),
        }
    } else {
        Step::Done(Ok(()))
    }
}

} // verus!

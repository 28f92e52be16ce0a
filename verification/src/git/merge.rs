//! Merging branches: previewing conflicts, merging, resolving conflicts
//! one file at a time, and finishing or aborting a merge.
use vstd::prelude::*;

use crate::git::history::{identity_reqs, open_gate, guarded, GuardErrV};
use crate::git::protocol::{check_raw, cvec, flow_step, git2, git3, git4, lemma_script_finished, output_at, output_lines, progress_is, progress_step, raw_result, run_result, run_script, rvec, script, step_is, stdout_lines, trimmed, trimmed_stdout, Flow, GitErrV, GitError, GitOutput, Progress, Reply, Request, RequestV, Step, StepV};
use crate::text::{chars_of, chars_equal, contains_chars, contains_str, find_char, first_index_of, lemma_first_index_of, lossy_text, string_lit, string_of, sub_chars, trim, trim_chars, utf8_lossy, append_str};

verus! {

// ---------------------------------------------------------------------------
// Conflicts of an in-progress merge
// ---------------------------------------------------------------------------

/// Which side of a conflict is missing a version of the file, as opposed
/// to both sides having different content.
#[derive(Debug, Clone, Copy, PartialEq, Eq, Structural)]
pub enum ConflictKind {
    BothModified,
    DeletedByUs,
    DeletedByThem,
}

/// One file with an unresolved conflict.
#[derive(Debug, Clone, PartialEq, Eq)]
pub struct ConflictedFile {
    pub path: String,
    pub kind: ConflictKind,
}

/// The conflict a `status --porcelain=v1` line reports: its two status
/// letters `UD` (deleted by them), `DU` (deleted by us), or `UU`, `AA`,
/// `AU`, `UA` (both modified), then a separator, then the path (at least
/// one character). Other lines report none.
pub open spec fn conflict_of(line: Seq<char>) -> Option<(Seq<char>, ConflictKind)> {
    if line.len() < 4 || (line[2] as u32) >= 128 {
        None
    } else {
        let k = if line[0] == 'U' && line[1] == 'D' {
            Some(ConflictKind::DeletedByThem)
        } else if line[0] == 'D' && line[1] == 'U' {
            Some(ConflictKind::DeletedByUs)
        } else if (line[0] == 'U' && line[1] == 'U') || (line[0] == 'A' && line[1] == 'A') || (
        line[0] == 'A' && line[1] == 'U') || (line[0] == 'U' && line[1] == 'A') {
            Some(ConflictKind::BothModified)
        } else {
            None
        };
        match k {
            Some(kind) => Some((line.skip(3), kind)),
            None => None,
        }
    }
}

/// The conflicts reported by the lines, in order.
pub open spec fn conflicts(ls: Seq<Seq<char>>) -> Seq<(Seq<char>, ConflictKind)>
    decreases ls.len(),
{
    if ls.len() == 0 {
        Seq::empty()
    } else {
        let prev = conflicts(ls.drop_last());
        match conflict_of(ls.last()) {
            Some(c) => prev.push(c),
            None => prev,
        }
    }
}

/// The view of a conflicted file.
pub open spec fn conflict_view(c: ConflictedFile) -> (Seq<char>, ConflictKind) {
    (c.path@, c.kind)
}

/// The views of conflicted files.
pub open spec fn conflicts_view(v: Seq<ConflictedFile>) -> Seq<(Seq<char>, ConflictKind)> {
    v.map_values(|c: ConflictedFile| conflict_view(c))
}

/// The request that lists the conflicts.
pub open spec fn status_req() -> RequestV {
    RequestV::Git(seq!["status"@, "--porcelain=v1"@])
}

/// Listing the unresolved conflicts of an in-progress merge.
pub open spec fn conflicts_flow(r: Seq<Reply>) -> Flow<Seq<(Seq<char>, ConflictKind)>> {
    match script(seq![status_req()], r, 0) {
        Flow::Need(q) => Flow::Need(q),
        Flow::Failed(e) => Flow::Failed(e),
        Flow::Finished(_, _) => Flow::Finished(
            conflicts(output_lines(run_result(r[0])->Ok_0.stdout@)),
            1,
        ),
    }
}

fn conflict_of_exec(line: &Vec<char>) -> (r: Option<ConflictedFile>)
    ensures
        match r {
            Some(c) => conflict_of(line@) == Some(conflict_view(c)),
            None => conflict_of(line@) is None,
        },
{
    if line.len() < 4 || (line[2] as u32) >= 128 {
        return None;
    }
    let a = line[0];
    let b = line[1];
    let kind = if a == 'U' && b == 'D' {
        ConflictKind::DeletedByThem
    } else if a == 'D' && b == 'U' {
        ConflictKind::DeletedByUs
    } else if (a == 'U' && b == 'U') || (a == 'A' && b == 'A') || (a == 'A' && b == 'U') || (a == 'U'
        && b == 'A') {
        ConflictKind::BothModified
    } else {
        return None;
    };
    let path = sub_chars(line.as_slice(), 3, line.len());
    assert(path@ == line@.skip(3));
    Some(ConflictedFile { path: string_of(path.as_slice()), kind })
}

/// The conflicts among a process's output lines.
fn conflicts_of(o: &GitOutput) -> (v: Vec<ConflictedFile>)
    ensures
        conflicts_view(v@) == conflicts(output_lines(o.stdout@)),
{
    let ls = stdout_lines(o);
    let ghost lv = cvec(ls@);
    let mut out: Vec<ConflictedFile> = Vec::new();
    let mut i: usize = 0;
    while i < ls.len()
        invariant
            i <= ls.len(),
            lv == cvec(ls@),
            conflicts_view(out@) == conflicts(lv.take(i as int)),
        decreases ls.len() - i,
    {
        proof {
            assert(lv.take(i + 1).drop_last() == lv.take(i as int));
            assert(lv.take(i + 1).last() == ls@[i as int]@);
        }
        match conflict_of_exec(&ls[i]) {
            Some(c) => {
                let ghost before = out@;
                out.push(c);
                assert(conflicts_view(out@) == conflicts_view(before).push(conflict_view(c)));
            },
            None => {},
        }
        i = i + 1;
    }
    assert(lv.take(ls.len() as int) == lv);
    out
}

/// The conflicts, against the replies from `at` on.
pub fn conflicts_progress(replies: &[Reply], at: usize) -> (p: Progress<Vec<ConflictedFile>>)
    requires
        at <= replies.len(),
    ensures
        progress_is(p, conflicts_flow(replies@.skip(at as int)), |v: Vec<ConflictedFile>| conflicts_view(v@)),
{
    let ghost r = replies@.skip(at as int);
    let mut reqs: Vec<Request> = Vec::new();
    reqs.push(git2("status", "--porcelain=v1"));
    assert(rvec(reqs@) =~= seq![status_req()]);
    match run_script(reqs, replies, at) {
        Progress::Need(q) => {
            return Progress::Need(q);
        },
        Progress::Failed(e) => {
            return Progress::Failed(e);
        },
        Progress::Finished(_, _) => {},
    }
    proof {
        lemma_script_finished(seq![status_req()], r, 0);
        assert(r[0] == replies@[at as int]);
    }
    let o = output_at(replies, at);
    Progress::Finished(conflicts_of(o), 1)
}

/// Lists every unresolved conflict of an in-progress merge, from the XY
/// status codes of `status --porcelain=v1`.
pub fn list_merge_conflicts(replies: &[Reply]) -> (s: Step<Vec<ConflictedFile>, GitError>)
    ensures
        step_is(
            s,
            flow_step(conflicts_flow(replies@)),
            |v: Vec<ConflictedFile>| conflicts_view(v@),
            |e: GitError| e.view(),
        ),
{
    assert(replies@.skip(0) == replies@);
    progress_step(conflicts_progress(replies, 0))
}

// ---------------------------------------------------------------------------
// Previewing a merge
// ---------------------------------------------------------------------------

/// Number of occurrences of `c` in `s`.
pub open spec fn count_char(s: Seq<char>, c: char) -> nat
    decreases s.len(),
{
    if s.len() == 0 {
        0
    } else {
        count_char(s.drop_last(), c) + if s.last() == c {
            1nat
        } else {
            0nat
        }
    }
}

/// The path a `merge-tree` line names when it is a conflicting entry:
/// `<mode> <oid> <stage>`, a tab, then the path.
pub open spec fn conflict_path(line: Seq<char>) -> Option<Seq<char>> {
    match first_index_of(line, '\t') {
        None => None,
        Some(i) => if count_char(line.take(i), ' ') == 2 {
            Some(line.skip(i + 1))
        } else {
            None
        },
    }
}

/// The conflicting paths named by the lines, each once, in order of first
/// appearance.
pub open spec fn conflict_paths(ls: Seq<Seq<char>>) -> Seq<Seq<char>>
    decreases ls.len(),
{
    if ls.len() == 0 {
        Seq::empty()
    } else {
        let prev = conflict_paths(ls.drop_last());
        match conflict_path(ls.last()) {
            Some(p) => if prev.contains(p) {
                prev
            } else {
                prev.push(p)
            },
            None => prev,
        }
    }
}

/// Every line but the first.
pub open spec fn after_first(ls: Seq<Seq<char>>) -> Seq<Seq<char>> {
    if ls.len() == 0 {
        Seq::empty()
    } else {
        ls.skip(1)
    }
}

/// Previewing the merge of `to` into `from` with `merge-tree
/// --write-tree`, which touches neither the files nor the index: an
/// output that is blank once trimmed is a failure (with the standard
/// error); otherwise the paths of the conflicting entries after the first
/// line (the tree), empty for a clean merge. The exit status is not
/// consulted: a conflict exits non-zero.
pub open spec fn preview_merge_flow(from: Seq<char>, to: Seq<char>, r: Seq<Reply>) -> StepV<Seq<Seq<char>>, GitErrV> {
    if r.len() == 0 {
        StepV::Ask(RequestV::Git(seq!["merge-tree"@, "--write-tree"@, from, to]))
    } else {
        match raw_result(r[0]) {
            Err(e) => StepV::Done(Err(e)),
            Ok(o) => if trim(utf8_lossy(o.stdout@)).len() == 0 {
                StepV::Done(Err(GitErrV::Failed(utf8_lossy(o.stderr@))))
            } else {
                StepV::Done(Ok(conflict_paths(after_first(output_lines(o.stdout@)))))
            },
        }
    }
}

fn count_spaces(s: &[char], n: usize) -> (c: usize)
    requires
        n <= s.len(),
    ensures
        c == count_char(s@.take(n as int), ' '),
        c <= n,
{
    let mut c: usize = 0;
    let mut i: usize = 0;
    while i < n
        invariant
            i <= n,
            n <= s.len(),
            c == count_char(s@.take(i as int), ' '),
            c <= i,
        decreases n - i,
    {
        assert(s@.take(i + 1).drop_last() == s@.take(i as int));
        if s[i] == ' ' {
            c = c + 1;
        }
        i = i + 1;
    }
    c
}

fn conflict_path_exec(line: &Vec<char>) -> (r: Option<Vec<char>>)
    ensures
        match r {
            Some(p) => conflict_path(line@) == Some(p@),
            None => conflict_path(line@) is None,
        },
{
    let i = match find_char(line.as_slice(), '\t') {
        Some(i) => i,
        None => {
            return None;
        },
    };
    proof {
        lemma_first_index_of(line@, '\t');
    }
    assert(i < line.len());
    if count_spaces(line.as_slice(), i) == 2 {
        let p = sub_chars(line.as_slice(), i + 1, line.len());
        assert(p@ == line@.skip(i + 1));
        Some(p)
    } else {
        None
    }
}

fn contains_path(v: &Vec<String>, p: &Vec<char>) -> (r: bool)
    ensures
        r == v@.map_values(|s: String| s@).contains(p@),
{
    let ghost vv = v@.map_values(|s: String| s@);
    let mut i: usize = 0;
    while i < v.len()
        invariant
            i <= v.len(),
            vv == v@.map_values(|s: String| s@),
            forall|j: int| 0 <= j < i ==> vv[j] != p@,
        decreases v.len() - i,
    {
        let c = chars_of(v[i].as_str());
        if chars_equal(c.as_slice(), p.as_slice()) {
            assert(vv[i as int] == p@);
            return true;
        }
        i = i + 1;
    }
    false
}

/// Previews merging `to` into `from` without touching the files or the
/// index; the paths that would conflict (none for a clean merge).
pub fn preview_merge(from: &str, to: &str, replies: &[Reply]) -> (s: Step<Vec<String>, GitError>)
    ensures
        step_is(
            s,
            preview_merge_flow(from@, to@, replies@),
            |v: Vec<String>| v@.map_values(|x: String| x@),
            |e: GitError| e.view(),
        ),
{
    if replies.len() == 0 {
        return Step::Ask(git4("merge-tree", "--write-tree", from, to));
    }
    let o = match check_raw(&replies[0]) {
        Err(e) => {
            return Step::Done(Err(e));
        },
        Ok(o) => o,
    };
    let text = lossy_text(o.stdout.as_slice());
    let cs = chars_of(text.as_str());
    let t = trim_chars(cs.as_slice());
    if t.len() == 0 {
        return Step::Done(Err(GitError::CommandFailed(lossy_text(o.stderr.as_slice()))));
    }
    let ls = stdout_lines(o);
    let ghost lv = cvec(ls@);
    let ghost tail = after_first(lv);
    let mut out: Vec<String> = Vec::new();
    let mut i: usize = 1;
    assert(tail.take(0) == Seq::<Seq<char>>::empty());
    while i < ls.len()
        invariant
            1 <= i,
            i <= ls.len() || i == 1,
            lv == cvec(ls@),
            tail == after_first(lv),
            out@.map_values(|x: String| x@) == conflict_paths(tail.take(i - 1)),
        decreases ls.len() - i,
    {
        proof {
            assert(tail.take(i as int).drop_last() == tail.take(i - 1));
            assert(tail.take(i as int).last() == ls@[i as int]@);
        }
        match conflict_path_exec(&ls[i]) {
            Some(p) => {
                if !contains_path(&out, &p) {
                    let ghost before = out@;
                    out.push(string_of(p.as_slice()));
                    assert(out@.map_values(|x: String| x@) == before.map_values(|x: String| x@).push(p@));
                }
            },
            None => {},
        }
        i = i + 1;
    }
    assert(out@.map_values(|x: String| x@) == conflict_paths(tail.take(i - 1)));
    proof {
        if ls.len() >= 1 {
            assert(i == ls.len());
            assert(tail == lv.skip(1));
            assert(tail.len() == ls.len() - 1);
            assert(tail.take(i - 1) =~= tail);
            assert(conflict_paths(tail.take(i - 1)) == conflict_paths(tail));
        } else {
            assert(lv.len() == 0);
            assert(tail =~= Seq::<Seq<char>>::empty());
            assert(tail.take(i - 1) =~= tail);
            assert(conflict_paths(tail.take(i - 1)) == conflict_paths(tail));
        }
        assert(out@.map_values(|x: String| x@) == conflict_paths(tail));
        assert(lv == output_lines(o.stdout@));
    }
    Step::Done(Ok(out))
}

// ---------------------------------------------------------------------------
// Merging
// ---------------------------------------------------------------------------

/// Why a merge operation stopped.
#[derive(Debug, Clone, PartialEq, Eq)]
pub enum MergeError {
    /// The world is open in Minecraft.
    WorldCurrentlyOpen,
    /// A previous merge is still unresolved.
    AlreadyInProgress,
    /// Checking whether the world is open failed (the message).
    Io(String),
    Git(GitError),
}

impl MergeError {
    pub open spec fn view(self) -> GuardErrV {
        match self {
            MergeError::WorldCurrentlyOpen => GuardErrV::WorldCurrentlyOpen,
            MergeError::AlreadyInProgress => GuardErrV::AlreadyInProgress,
            MergeError::Io(m) => GuardErrV::Io(m@),
            MergeError::Git(e) => GuardErrV::Git(e.view()),
        }
    }
}

/// Outcome of merging another branch into the current one.
#[derive(Debug, Clone, PartialEq, Eq)]
pub enum MergeOutcome {
    /// A clean merge, and the new `HEAD`.
    Merged(String),
    /// The files that need resolving before the merge can be finished.
    ConflictsPending(Vec<ConflictedFile>),
}

/// The view of a merge outcome.
pub enum MergeV {
    Merged(Seq<char>),
    ConflictsPending(Seq<(Seq<char>, ConflictKind)>),
}

/// The view of a merge outcome.
pub open spec fn merge_view(o: MergeOutcome) -> MergeV {
    match o {
        MergeOutcome::Merged(h) => MergeV::Merged(h@),
        MergeOutcome::ConflictsPending(v) => MergeV::ConflictsPending(conflicts_view(v@)),
    }
}

/// The merge commit message for `other`.
pub open spec fn merge_message(other: Seq<char>) -> Seq<char> {
    "Merge branch '"@ + other + "'"@
}

fn guard_merge<T, U>(p: Progress<T>) -> (s: Option<Step<U, MergeError>>)
    ensures
        match p {
            Progress::Need(q) => s == Some(Step::<U, MergeError>::Ask(q)),
            Progress::Failed(e) => s == Some(Step::<U, MergeError>::Done(Err(MergeError::Git(e)))),
            Progress::Finished(_, _) => s is None,
        },
{
    match p {
        Progress::Need(q) => Some(Step::Ask(q)),
        Progress::Failed(e) => Some(Step::Done(Err(MergeError::Git(e)))),
        Progress::Finished(_, _) => None,
    }
}

/// The refusal for an `IsOpen` answer.
fn merge_gate(replies: &[Reply]) -> (r: Option<MergeError>)
    requires
        replies.len() > 0,
    ensures
        match r {
            None => open_gate(replies@) is None,
            Some(e) => open_gate(replies@) == Some(e.view()),
        },
{
    match &replies[0] {
        Reply::Open(Ok(false)) => None,
        Reply::Open(Ok(true)) => Some(MergeError::WorldCurrentlyOpen),
        Reply::Open(Err(m)) => Some(MergeError::Io(m.clone())),
        _ => Some(MergeError::Git(GitError::Spawn(string_lit("reply does not answer the request")))),
    }
}

/// Merging `other` into the current branch: refuse while the world is
/// open, or while a previous merge is unresolved; set the identity; run
/// `merge <other> -m "Merge branch '<other>'"`. On success report the new
/// `HEAD`; on failure, a merge left in progress means conflicts (listed);
/// otherwise the failure itself (its standard error).
pub open spec fn merge_branch_flow(other: Seq<char>, name: Seq<char>, email: Seq<char>, r: Seq<Reply>) -> StepV<
    MergeV,
    GuardErrV,
> {
    if r.len() == 0 {
        StepV::Ask(RequestV::IsOpen)
    } else if open_gate(r) is Some {
        StepV::Done(Err(open_gate(r)->0))
    } else if r.len() == 1 {
        StepV::Ask(RequestV::MergeInProgress)
    } else {
        match r[1] {
            Reply::Flag(true) => StepV::Done(Err(GuardErrV::AlreadyInProgress)),
            Reply::Flag(false) => {
                let f1 = script(identity_reqs(name, email), r.skip(2), 0);
                match f1 {
                    Flow::Finished(_, _) => if r.len() == 4 {
                        StepV::Ask(RequestV::Git(seq!["merge"@, other, "-m"@, merge_message(other)]))
                    } else {
                        match raw_result(r[4]) {
                            Err(e) => StepV::Done(Err(GuardErrV::Git(e))),
                            Ok(o) => if o.success {
                                let f2 = script(seq![RequestV::Git(seq!["rev-parse"@, "HEAD"@])], r.skip(5), 0);
                                match f2 {
                                    Flow::Finished(_, _) => StepV::Done(Ok(MergeV::Merged(trimmed(run_result(r[5])->Ok_0)))),
                                    _ => guarded(f2)->0,
                                }
                            } else if r.len() == 5 {
                                StepV::Ask(RequestV::MergeInProgress)
                            } else {
                                match r[5] {
                                    Reply::Flag(true) => {
                                        let f3 = conflicts_flow(r.skip(6));
                                        match f3 {
                                            Flow::Finished(c, _) => StepV::Done(Ok(MergeV::ConflictsPending(c))),
                                            _ => guarded(f3)->0,
                                        }
                                    },
                                    Reply::Flag(false) => StepV::Done(Err(GuardErrV::Git(GitErrV::Failed(utf8_lossy(o.stderr@))))),
                                    _ => StepV::Done(Err(GuardErrV::Git(GitErrV::Spawn(crate::git::protocol::mismatch_text())))),
                                }
                            },
                        }
                    },
                    _ => guarded(f1)->0,
                }
            },
            _ => StepV::Done(Err(GuardErrV::Git(GitErrV::Spawn(crate::git::protocol::mismatch_text())))),
        }
    }
}

fn mismatch<T>() -> (s: Step<T, MergeError>)
    ensures
        s == Step::<T, MergeError>::Done(Err(MergeError::Git(GitError::Spawn(s->Done_0->Err_0->Git_0->Spawn_0)))),
        s->Done_0->Err_0->Git_0->Spawn_0@ == crate::git::protocol::mismatch_text(),
{
    Step::Done(Err(MergeError::Git(GitError::Spawn(string_lit("reply does not answer the request")))))
}

/// Merges `other` into the current branch. Refused while the world is
/// open in Minecraft or while a previous merge is still unresolved.
pub fn merge_branch(other: &str, commit_name: &str, commit_email: &str, replies: &[Reply]) -> (s: Step<
    MergeOutcome,
    MergeError,
>)
    ensures
        step_is(
            s,
            merge_branch_flow(other@, commit_name@, commit_email@, replies@),
            |o: MergeOutcome| merge_view(o),
            |e: MergeError| e.view(),
        ),
{
    if replies.len() == 0 {
        return Step::Ask(Request::IsOpen);
    }
    match merge_gate(replies) {
        Some(e) => {
            return Step::Done(Err(e));
        },
        None => {},
    }
    if replies.len() == 1 {
        return Step::Ask(Request::MergeInProgress);
    }
    match &replies[1] {
        Reply::Flag(true) => {
            return Step::Done(Err(MergeError::AlreadyInProgress));
        },
        Reply::Flag(false) => {},
        _ => {
            return mismatch();
        },
    }
    let ghost r = replies@;
    let mut ids: Vec<Request> = Vec::new();
    ids.push(git4("config", "--local", "user.name", commit_name));
    ids.push(git4("config", "--local", "user.email", commit_email));
    assert(rvec(ids@) =~= identity_reqs(commit_name@, commit_email@));
    match run_script(ids, replies, 2) {
        Progress::Finished(_, _) => {},
        other => {
            return guard_merge(other).unwrap();
        },
    }
    proof {
        lemma_script_finished(identity_reqs(commit_name@, commit_email@), r.skip(2), 0);
    }
    if replies.len() == 4 {
        let mut m = chars_of("Merge branch '");
        crate::text::append_str(&mut m, other);
        crate::text::append_str(&mut m, "'");
        let msg = string_of(m.as_slice());
        return Step::Ask(git4("merge", other, "-m", msg.as_str()));
    }
    let o = match check_raw(&replies[4]) {
        Err(e) => {
            return Step::Done(Err(MergeError::Git(e)));
        },
        Ok(o) => o,
    };
    if o.success {
        let mut rq: Vec<Request> = Vec::new();
        rq.push(git2("rev-parse", "HEAD"));
        assert(rvec(rq@) =~= seq![RequestV::Git(seq!["rev-parse"@, "HEAD"@])]);
        match run_script(rq, replies, 5) {
            Progress::Finished(_, _) => {},
            other => {
                return guard_merge(other).unwrap();
            },
        }
        proof {
            lemma_script_finished(seq![RequestV::Git(seq!["rev-parse"@, "HEAD"@])], r.skip(5), 0);
            assert(r.skip(5)[0] == r[5]);
        }
        return Step::Done(Ok(MergeOutcome::Merged(trimmed_stdout(output_at(replies, 5)))));
    }
    if replies.len() == 5 {
        return Step::Ask(Request::MergeInProgress);
    }
    match &replies[5] {
        Reply::Flag(true) => match conflicts_progress(replies, 6) {
            Progress::Finished(c, _) => Step::Done(Ok(MergeOutcome::ConflictsPending(c))),
            other => guard_merge(other).unwrap(),
        },
        Reply::Flag(false) => Step::Done(
            Err(MergeError::Git(GitError::CommandFailed(lossy_text(o.stderr.as_slice())))),
        ),
        _ => mismatch(),
    }
}

/// Which side of a conflict to keep.
#[derive(Debug, Clone, Copy, PartialEq, Eq, Structural)]
pub enum Side {
    Ours,
    Theirs,
}

/// The `checkout` flag that keeps `side`.
pub open spec fn side_flag(side: Side) -> Seq<char> {
    match side {
        Side::Ours => "--ours"@,
        Side::Theirs => "--theirs"@,
    }
}

/// Resolving `path` by keeping `keep`'s version: refuse while the world
/// is open; `checkout --ours|--theirs -- <path>`, then `add -- <path>`;
/// when that side deleted the file (`git` says it "does not have our
/// version" or "does not have their version"), accept the deletion with
/// `rm -- <path>`; any other failure is reported.
pub open spec fn resolve_flow(path: Seq<char>, keep: Side, r: Seq<Reply>) -> StepV<(), GuardErrV> {
    if r.len() == 0 {
        StepV::Ask(RequestV::IsOpen)
    } else if open_gate(r) is Some {
        StepV::Done(Err(open_gate(r)->0))
    } else if r.len() == 1 {
        StepV::Ask(RequestV::Git(seq!["checkout"@, side_flag(keep), "--"@, path]))
    } else {
        match raw_result(r[1]) {
            Err(e) => StepV::Done(Err(GuardErrV::Git(e))),
            Ok(o) => {
                let err = utf8_lossy(o.stderr@);
                if o.success {
                    let f = script(seq![RequestV::Git(seq!["add"@, "--"@, path])], r.skip(2), 0);
                    match f {
                        Flow::Finished(_, _) => StepV::Done(Ok(())),
                        _ => guarded(f)->0,
                    }
                } else if contains_chars(err, "does not have our version"@) || contains_chars(
                    err,
                    "does not have their version"@,
                ) {
                    let f = script(seq![RequestV::Git(seq!["rm"@, "--"@, path])], r.skip(2), 0);
                    match f {
                        Flow::Finished(_, _) => StepV::Done(Ok(())),
                        _ => guarded(f)->0,
                    }
                } else {
                    StepV::Done(Err(GuardErrV::Git(GitErrV::Failed(err))))
                }
            },
        }
    }
}

/// Resolves one conflicted file of an in-progress merge by keeping
/// `keep`'s version (or accepting its deletion). Refused while the world
/// is open in Minecraft.
pub fn resolve_conflict(path: &str, keep: Side, replies: &[Reply]) -> (s: Step<(), MergeError>)
    ensures
        step_is(s, resolve_flow(path@, keep, replies@), |u: ()| u, |e: MergeError| e.view()),
{
    if replies.len() == 0 {
        return Step::Ask(Request::IsOpen);
    }
    match merge_gate(replies) {
        Some(e) => {
            return Step::Done(Err(e));
        },
        None => {},
    }
    let flag = match keep {
        Side::Ours => "--ours",
        Side::Theirs => "--theirs",
    };
    if replies.len() == 1 {
        return Step::Ask(git4("checkout", flag, "--", path));
    }
    let o = match check_raw(&replies[1]) {
        Err(e) => {
            return Step::Done(Err(MergeError::Git(e)));
        },
        Ok(o) => o,
    };
    let err = lossy_text(o.stderr.as_slice());
    let ec = chars_of(err.as_str());
    let mut rq: Vec<Request> = Vec::new();
    if o.success {
        rq.push(git3("add", "--", path));
        assert(rvec(rq@) =~= seq![RequestV::Git(seq!["add"@, "--"@, path@])]);
    } else if contains_str(ec.as_slice(), "does not have our version") || contains_str(
        ec.as_slice(),
        "does not have their version",
    ) {
        rq.push(git3("rm", "--", path));
        assert(rvec(rq@) =~= seq![RequestV::Git(seq!["rm"@, "--"@, path@])]);
    } else {
        return Step::Done(Err(MergeError::Git(GitError::CommandFailed(err))));
    }
    match run_script(rq, replies, 2) {
        Progress::Finished(_, _) => Step::Done(Ok(())),
        other => guard_merge(other).unwrap(),
    }
}

/// Finishing a merge once every conflict is resolved: set the identity,
/// `commit -m <msg>` (only what was resolved, no `add -A`), and report
/// the new `HEAD`.
pub open spec fn finish_merge_flow(msg: Seq<char>, name: Seq<char>, email: Seq<char>, r: Seq<Reply>) -> Flow<
    Seq<char>,
> {
    match script(
        identity_reqs(name, email) + seq![
            RequestV::Git(seq!["commit"@, "-m"@, msg]),
            RequestV::Git(seq!["rev-parse"@, "HEAD"@]),
        ],
        r,
        0,
    ) {
        Flow::Need(q) => Flow::Need(q),
        Flow::Failed(e) => Flow::Failed(e),
        Flow::Finished(_, _) => Flow::Finished(trimmed(run_result(r[3])->Ok_0), 4),
    }
}

/// Finishes an in-progress merge once every conflict has been resolved;
/// the new `HEAD`.
pub fn finish_merge(message: &str, commit_name: &str, commit_email: &str, replies: &[Reply]) -> (s: Step<
    String,
    GitError,
>)
    ensures
        step_is(
            s,
            flow_step(finish_merge_flow(message@, commit_name@, commit_email@, replies@)),
            |h: String| h@,
            |e: GitError| e.view(),
        ),
{
    let ghost reqv = identity_reqs(commit_name@, commit_email@) + seq![
        RequestV::Git(seq!["commit"@, "-m"@, message@]),
        RequestV::Git(seq!["rev-parse"@, "HEAD"@]),
    ];
    let mut reqs: Vec<Request> = Vec::new();
    reqs.push(git4("config", "--local", "user.name", commit_name));
    reqs.push(git4("config", "--local", "user.email", commit_email));
    reqs.push(git3("commit", "-m", message));
    reqs.push(git2("rev-parse", "HEAD"));
    assert(rvec(reqs@) =~= reqv);
    assert(replies@.skip(0) == replies@);
    match run_script(reqs, replies, 0) {
        Progress::Need(q) => {
            return Step::Ask(q);
        },
        Progress::Failed(e) => {
            return Step::Done(Err(e));
        },
        Progress::Finished(_, _) => {},
    }
    proof {
        lemma_script_finished(reqv, replies@, 0);
    }
    Step::Done(Ok(trimmed_stdout(output_at(replies, 3))))
}

/// Aborting an in-progress merge (`merge --abort`), restoring the world to
/// how it was before the merge started.
pub open spec fn abort_merge_flow(r: Seq<Reply>) -> StepV<(), GitErrV> {
    flow_step(script(seq![RequestV::Git(seq!["merge"@, "--abort"@])], r, 0))
}

/// Aborts an in-progress merge.
pub fn abort_merge(replies: &[Reply]) -> (s: Step<(), GitError>)
    ensures
        step_is(s, abort_merge_flow(replies@), |u: ()| u, |e: GitError| e.view()),
{
    let mut reqs: Vec<Request> = Vec::new();
    reqs.push(git2("merge", "--abort"));
    assert(rvec(reqs@) =~= seq![RequestV::Git(seq!["merge"@, "--abort"@])]);
    assert(replies@.skip(0) == replies@);
    progress_step(run_script(reqs, replies, 0))
}

} // verus!

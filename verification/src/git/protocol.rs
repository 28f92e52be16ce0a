//! Requests, replies, errors and the shared reading of `git`'s output.
use vstd::prelude::*;

use crate::text::{lines, lines_of, chars_of, find_char, first_index_of, lemma_first_index_of, lossy_text, string_lit, string_of, sub_chars, trim, trim_chars, utf8_lossy};

verus! {

/// Why a `git` invocation failed.
#[derive(Debug, Clone, PartialEq, Eq)]
pub enum GitError {
    /// `git` could not be started (the operating system's message).
    Spawn(String),
    /// `git` ran and failed (its standard error, decoded).
    CommandFailed(String),
}

/// The view of a `GitError`.
pub enum GitErrV {
    Spawn(Seq<char>),
    Failed(Seq<char>),
}

impl GitError {
    /// The error as values.
    pub open spec fn view(self) -> GitErrV {
        match self {
            GitError::Spawn(m) => GitErrV::Spawn(m@),
            GitError::CommandFailed(m) => GitErrV::Failed(m@),
        }
    }
}

/// What a finished `git` process left behind.
#[derive(Debug, Clone)]
pub struct GitOutput {
    pub success: bool,
    pub stdout: Vec<u8>,
    pub stderr: Vec<u8>,
}

/// Outside work an operation needs done.
#[derive(Debug, Clone)]
pub enum Request {
    /// Run `git` with these arguments in the world folder.
    Git(Vec<String>),
    /// Run `git` with these arguments, with `GIT_AUTHOR_DATE` and
    /// `GIT_COMMITTER_DATE` set to the given dates.
    GitWithDates(Vec<String>, String, String),
    /// Whether the world is currently open in Minecraft (its
    /// `session.lock` is locked by another process).
    IsOpen,
    /// Whether the world folder has a `.git` directory.
    IsRepository,
    /// Whether `.git/MERGE_HEAD` exists.
    MergeInProgress,
    /// The text of `.git/info/exclude` (empty when it cannot be read).
    ReadExclude,
    /// Replace `.git/info/exclude` with this text.
    WriteExclude(String),
}

/// The view of a request.
pub enum RequestV {
    Git(Seq<Seq<char>>),
    GitWithDates(Seq<Seq<char>>, Seq<char>, Seq<char>),
    IsOpen,
    IsRepository,
    MergeInProgress,
    ReadExclude,
    WriteExclude(Seq<char>),
}

/// The views of a vector of strings.
pub open spec fn svec(v: Seq<String>) -> Seq<Seq<char>> {
    v.map_values(|s: String| s@)
}

impl Request {
    /// The request as values.
    pub open spec fn view(self) -> RequestV {
        match self {
            Request::Git(a) => RequestV::Git(svec(a@)),
            Request::GitWithDates(a, x, y) => RequestV::GitWithDates(svec(a@), x@, y@),
            Request::IsOpen => RequestV::IsOpen,
            Request::IsRepository => RequestV::IsRepository,
            Request::MergeInProgress => RequestV::MergeInProgress,
            Request::ReadExclude => RequestV::ReadExclude,
            Request::WriteExclude(t) => RequestV::WriteExclude(t@),
        }
    }
}

/// The answer to a request.
#[derive(Debug)]
pub enum Reply {
    /// `git` ran (its output), or could not be started (the message).
    Ran(Result<GitOutput, String>),
    /// The answer to `IsRepository` or `MergeInProgress`.
    Flag(bool),
    /// The answer to `IsOpen`: an I/O error's message, or whether it is
    /// open.
    Open(Result<bool, String>),
    /// The answer to `ReadExclude`.
    Text(String),
    /// The answer to `WriteExclude`: an I/O error's message, or success.
    Written(Result<(), String>),
}

/// The next move of an operation: a request, or its outcome.
#[derive(Debug)]
pub enum Step<T, E> {
    Ask(Request),
    Done(Result<T, E>),
}

/// The next move of an operation, as values.
pub enum StepV<T, E> {
    Ask(RequestV),
    Done(Result<T, E>),
}

/// Whether `s` is the move `v`, with outcomes viewed by `f` and errors
/// by `g`.
pub open spec fn step_is<T, E, TV, EV>(
    s: Step<T, E>,
    v: StepV<TV, EV>,
    f: spec_fn(T) -> TV,
    g: spec_fn(E) -> EV,
) -> bool {
    match s {
        Step::Ask(q) => v == StepV::<TV, EV>::Ask(q.view()),
        Step::Done(Ok(t)) => v == StepV::<TV, EV>::Done(Ok(f(t))),
        Step::Done(Err(e)) => v == StepV::<TV, EV>::Done(Err(g(e))),
    }
}

/// The message used when a reply does not answer the request it follows.
pub open spec fn mismatch_text() -> Seq<char> {
    "reply does not answer the request"@
}

/// A reply to a `git` invocation read the way every checked invocation
/// reads it: its output if `git` ran and succeeded, otherwise why not.
pub open spec fn run_result(r: Reply) -> Result<GitOutput, GitErrV> {
    match r {
        Reply::Ran(Ok(o)) => if o.success {
            Ok(o)
        } else {
            Err(GitErrV::Failed(utf8_lossy(o.stderr@)))
        },
        Reply::Ran(Err(m)) => Err(GitErrV::Spawn(m@)),
        _ => Err(GitErrV::Spawn(mismatch_text())),
    }
}

/// A reply to a `git` invocation whose exit status the caller inspects
/// itself: its output whenever `git` ran.
pub open spec fn raw_result(r: Reply) -> Result<GitOutput, GitErrV> {
    match r {
        Reply::Ran(Ok(o)) => Ok(o),
        Reply::Ran(Err(m)) => Err(GitErrV::Spawn(m@)),
        _ => Err(GitErrV::Spawn(mismatch_text())),
    }
}

/// Reads a reply to a checked `git` invocation.
pub fn check_run(r: &Reply) -> (o: Result<&GitOutput, GitError>)
    ensures
        match o {
            Ok(out) => run_result(*r) == Ok::<GitOutput, GitErrV>(*out),
            Err(e) => run_result(*r) == Err::<GitOutput, GitErrV>(e.view()),
        },
{
    match r {
        Reply::Ran(Ok(o)) => {
            if o.success {
                Ok(o)
            } else {
                Err(GitError::CommandFailed(lossy_text(o.stderr.as_slice())))
            }
        },
        Reply::Ran(Err(m)) => Err(GitError::Spawn(m.clone())),
        _ => Err(GitError::Spawn(string_lit("reply does not answer the request"))),
    }
}

/// Reads a reply to a `git` invocation whose exit status is inspected by
/// the caller.
pub fn check_raw(r: &Reply) -> (o: Result<&GitOutput, GitError>)
    ensures
        match o {
            Ok(out) => raw_result(*r) == Ok::<GitOutput, GitErrV>(*out),
            Err(e) => raw_result(*r) == Err::<GitOutput, GitErrV>(e.view()),
        },
{
    match r {
        Reply::Ran(Ok(o)) => Ok(o),
        Reply::Ran(Err(m)) => Err(GitError::Spawn(m.clone())),
        _ => Err(GitError::Spawn(string_lit("reply does not answer the request"))),
    }
}

/// A process's standard output, decoded and trimmed (how a hash or a
/// branch name is read).
pub open spec fn trimmed(o: GitOutput) -> Seq<char> {
    trim(utf8_lossy(o.stdout@))
}

/// A process's standard output, decoded and trimmed.
pub fn trimmed_stdout(o: &GitOutput) -> (s: String)
    ensures
        s@ == trimmed(*o),
{
    let text = lossy_text(o.stdout.as_slice());
    let cs = chars_of(text.as_str());
    let t = trim_chars(cs.as_slice());
    string_of(t.as_slice())
}

/// Strings from literals and values.
pub fn strs(parts: &[&str]) -> (v: Vec<String>)
    ensures
        svec(v@) == parts@.map_values(|s: &str| s@),
{
    let mut v: Vec<String> = Vec::new();
    let mut i: usize = 0;
    while i < parts.len()
        invariant
            i <= parts.len(),
            svec(v@) == parts@.take(i as int).map_values(|s: &str| s@),
        decreases parts.len() - i,
    {
        let ghost before = v@;
        v.push(string_lit(parts[i]));
        proof {
            assert(svec(v@) == svec(before).push(parts@[i as int]@));
            assert(parts@.take(i + 1).map_values(|s: &str| s@) == parts@.take(i as int).map_values(
                |s: &str| s@,
            ).push(parts@[i as int]@));
        }
        i = i + 1;
    }
    assert(parts@.take(parts.len() as int) == parts@);
    v
}

/// A request to run `git` with these arguments.
pub fn git(parts: &[&str]) -> (q: Request)
    ensures
        q.view() == RequestV::Git(parts@.map_values(|s: &str| s@)),
{
    Request::Git(strs(parts))
}

/// Progress of part of a conversation, as values: the request it needs
/// next, why it failed, or its result and how many replies it used.
pub enum Flow<T> {
    Need(RequestV),
    Failed(GitErrV),
    Finished(T, nat),
}

/// Progress of part of a conversation.
pub enum Progress<T> {
    Need(Request),
    Failed(GitError),
    Finished(T, usize),
}

/// Whether `p` is the progress `f`, with results viewed by `view`.
pub open spec fn progress_is<T, TV>(p: Progress<T>, f: Flow<TV>, view: spec_fn(T) -> TV) -> bool {
    match p {
        Progress::Need(q) => f == Flow::<TV>::Need(q.view()),
        Progress::Failed(e) => f == Flow::<TV>::Failed(e.view()),
        Progress::Finished(t, n) => f == Flow::<TV>::Finished(view(t), n as nat),
    }
}

/// Running `reqs` in order with `git`, each required to succeed, from the
/// `i`-th on: the first failing reply stops it.
pub open spec fn script(reqs: Seq<RequestV>, r: Seq<Reply>, i: int) -> Flow<()>
    decreases reqs.len() - i,
{
    if i >= reqs.len() {
        Flow::Finished((), reqs.len())
    } else if i >= r.len() {
        Flow::Need(reqs[i])
    } else {
        match run_result(r[i]) {
            Err(e) => Flow::Failed(e),
            Ok(_) => script(reqs, r, i + 1),
        }
    }
}

/// When a script finished, every reply it used was a success.
pub proof fn lemma_script_finished(reqs: Seq<RequestV>, r: Seq<Reply>, i: int)
    requires
        0 <= i <= reqs.len(),
        i <= r.len(),
        script(reqs, r, i) is Finished,
    ensures
        reqs.len() <= r.len(),
        forall|j: int| i <= j < reqs.len() ==> (#[trigger] run_result(r[j])) is Ok,
    decreases reqs.len() - i,
{
    if i < reqs.len() {
        lemma_script_finished(reqs, r, i + 1);
    }
}

/// The views of requests.
pub open spec fn rvec(v: Seq<Request>) -> Seq<RequestV> {
    v.map_values(|q: Request| q.view())
}

/// Runs `reqs` in order, each required to succeed, against the replies
/// from `at` on.
pub fn run_script(reqs: Vec<Request>, replies: &[Reply], at: usize) -> (p: Progress<()>)
    requires
        at <= replies.len(),
    ensures
        progress_is(p, script(rvec(reqs@), replies@.skip(at as int), 0), |u: ()| u),
{
    let ghost rv = rvec(reqs@);
    let ghost r = replies@.skip(at as int);
    let mut pending = reqs;
    let mut i: usize = 0;
    assert(r.len() == replies.len() - at);
    assert(rv.len() == pending.len());
    while i < pending.len()
        invariant
            i <= pending.len(),
            at <= replies.len(),
            r == replies@.skip(at as int),
            rv == rvec(pending@),
            rv == rvec(reqs@),
            rv.len() == pending.len(),
            r.len() == replies.len() - at,
            script(rv, r, 0) == script(rv, r, i as int),
        decreases pending.len() - i,
    {
        if i >= replies.len() - at {
            let q = pending.remove(i);
            assert(q.view() == rv[i as int]);
            assert(i >= r.len());
            assert(script(rv, r, i as int) == Flow::<()>::Need(rv[i as int]));
            return Progress::Need(q);
        }
        assert(r[i as int] == replies@[at + i]);
        match check_run(&replies[at + i]) {
            Err(e) => {
                assert(script(rv, r, i as int) == Flow::<()>::Failed(e.view()));
                return Progress::Failed(e);
            },
            Ok(_) => {},
        }
        i = i + 1;
    }
    Progress::Finished((), pending.len())
}

/// Reads the reply at `i`, known to be a successful `git` run.
pub fn output_at(replies: &[Reply], i: usize) -> (o: &GitOutput)
    requires
        i < replies.len(),
        run_result(replies@[i as int]) is Ok,
    ensures
        run_result(replies@[i as int]) == Ok::<GitOutput, GitErrV>(*o),
{
    match &replies[i] {
        Reply::Ran(Ok(o)) => o,
        _ => vstd::pervasive::unreached(),
    }
}

/// An operation's next move once a part of it is its whole.
pub open spec fn flow_step<T>(f: Flow<T>) -> StepV<T, GitErrV> {
    match f {
        Flow::Need(q) => StepV::Ask(q),
        Flow::Failed(e) => StepV::Done(Err(e)),
        Flow::Finished(t, _) => StepV::Done(Ok(t)),
    }
}

/// The move an operation makes when a part of it is its whole.
pub fn progress_step<T>(p: Progress<T>) -> (s: Step<T, GitError>)
    ensures
        match p {
            Progress::Need(q) => s == Step::<T, GitError>::Ask(q),
            Progress::Failed(e) => s == Step::<T, GitError>::Done(Err(e)),
            Progress::Finished(t, _) => s == Step::<T, GitError>::Done(Ok(t)),
        },
{
    match p {
        Progress::Need(q) => Step::Ask(q),
        Progress::Failed(e) => Step::Done(Err(e)),
        Progress::Finished(t, _) => Step::Done(Ok(t)),
    }
}

/// A request to run `git` with 1 argument.
pub fn git1(a: &str) -> (q: Request)
    ensures
        q.view() == RequestV::Git(seq![a@]),
{
    let mut v: Vec<String> = Vec::new();
    v.push(string_lit(a));
    assert(svec(v@) =~= seq![a@]);
    Request::Git(v)
}

/// A request to run `git` with 2 arguments.
pub fn git2(a: &str, b: &str) -> (q: Request)
    ensures
        q.view() == RequestV::Git(seq![a@, b@]),
{
    let mut v: Vec<String> = Vec::new();
    v.push(string_lit(a));
    v.push(string_lit(b));
    assert(svec(v@) =~= seq![a@, b@]);
    Request::Git(v)
}

/// A request to run `git` with 3 arguments.
pub fn git3(a: &str, b: &str, c: &str) -> (q: Request)
    ensures
        q.view() == RequestV::Git(seq![a@, b@, c@]),
{
    let mut v: Vec<String> = Vec::new();
    v.push(string_lit(a));
    v.push(string_lit(b));
    v.push(string_lit(c));
    assert(svec(v@) =~= seq![a@, b@, c@]);
    Request::Git(v)
}

/// A request to run `git` with 4 arguments.
pub fn git4(a: &str, b: &str, c: &str, d: &str) -> (q: Request)
    ensures
        q.view() == RequestV::Git(seq![a@, b@, c@, d@]),
{
    let mut v: Vec<String> = Vec::new();
    v.push(string_lit(a));
    v.push(string_lit(b));
    v.push(string_lit(c));
    v.push(string_lit(d));
    assert(svec(v@) =~= seq![a@, b@, c@, d@]);
    Request::Git(v)
}

/// A request to run `git` with 5 arguments.
pub fn git5(a: &str, b: &str, c: &str, d: &str, e: &str) -> (q: Request)
    ensures
        q.view() == RequestV::Git(seq![a@, b@, c@, d@, e@]),
{
    let mut v: Vec<String> = Vec::new();
    v.push(string_lit(a));
    v.push(string_lit(b));
    v.push(string_lit(c));
    v.push(string_lit(d));
    v.push(string_lit(e));
    assert(svec(v@) =~= seq![a@, b@, c@, d@, e@]);
    Request::Git(v)
}

/// A request to run `git` with 6 arguments.
pub fn git6(a: &str, b: &str, c: &str, d: &str, e: &str, f: &str) -> (q: Request)
    ensures
        q.view() == RequestV::Git(seq![a@, b@, c@, d@, e@, f@]),
{
    let mut v: Vec<String> = Vec::new();
    v.push(string_lit(a));
    v.push(string_lit(b));
    v.push(string_lit(c));
    v.push(string_lit(d));
    v.push(string_lit(e));
    v.push(string_lit(f));
    assert(svec(v@) =~= seq![a@, b@, c@, d@, e@, f@]);
    Request::Git(v)
}

/// A request to run `git` with 7 arguments.
pub fn git7(a: &str, b: &str, c: &str, d: &str, e: &str, f: &str, g: &str) -> (q: Request)
    ensures
        q.view() == RequestV::Git(seq![a@, b@, c@, d@, e@, f@, g@]),
{
    let mut v: Vec<String> = Vec::new();
    v.push(string_lit(a));
    v.push(string_lit(b));
    v.push(string_lit(c));
    v.push(string_lit(d));
    v.push(string_lit(e));
    v.push(string_lit(f));
    v.push(string_lit(g));
    assert(svec(v@) =~= seq![a@, b@, c@, d@, e@, f@, g@]);
    Request::Git(v)
}

/// `line` split at the first `n - 1` occurrences of `sep` into `n`
/// fields, the last holding the rest (as `str::splitn(n, sep)` yields
/// them), or `None` when there are fewer than `n` fields.
pub open spec fn split_fields(line: Seq<char>, n: nat, sep: char) -> Option<Seq<Seq<char>>>
    decreases n,
{
    if n <= 1 {
        Some(seq![line])
    } else {
        match first_index_of(line, sep) {
            None => None,
            Some(i) => match split_fields(line.skip(i + 1), (n - 1) as nat, sep) {
                None => None,
                Some(rest) => Some(seq![line.take(i)] + rest),
            },
        }
    }
}

/// The views of a vector of character vectors.
pub open spec fn cvec(v: Seq<Vec<char>>) -> Seq<Seq<char>> {
    v.map_values(|c: Vec<char>| c@)
}

/// `line` split into `n` fields at `sep` (see `split_fields`).
pub fn split_fields_exec(line: &[char], n: usize, sep: char) -> (r: Option<Vec<Vec<char>>>)
    ensures
        match r {
            Some(v) => split_fields(line@, n as nat, sep) == Some(cvec(v@)),
            None => split_fields(line@, n as nat, sep) is None,
        },
    decreases n,
{
    if n <= 1 {
        let mut v: Vec<Vec<char>> = Vec::new();
        v.push(sub_chars(line, 0, line.len()));
        assert(line@.subrange(0, line@.len() as int) == line@);
        assert(cvec(v@) =~= seq![line@]);
        return Some(v);
    }
    let i = match find_char(line, sep) {
        Some(i) => i,
        None => {
            return None;
        },
    };
    proof {
        lemma_first_index_of(line@, sep);
    }
    assert(i < line.len());
    let rest_chars = sub_chars(line, i + 1, line.len());
    assert(rest_chars@ == line@.skip(i + 1));
    match split_fields_exec(rest_chars.as_slice(), n - 1, sep) {
        None => None,
        Some(rest) => {
            let mut v = rest;
            let ghost rv = cvec(v@);
            v.insert(0, sub_chars(line, 0, i));
            assert(cvec(v@) =~= seq![line@.take(i as int)] + rv);
            Some(v)
        },
    }
}

/// A successful split has exactly `n` fields (at least one).
pub proof fn lemma_split_fields_len(line: Seq<char>, n: nat, sep: char)
    ensures
        split_fields(line, n, sep) matches Some(v) ==> v.len() == if n <= 1 {
            1
        } else {
            n as int
        },
    decreases n,
{
    if n > 1 {
        if let Some(i) = first_index_of(line, sep) {
            lemma_split_fields_len(line.skip(i + 1), (n - 1) as nat, sep);
        }
    }
}

/// The lines of `text` that split into `n` fields at the unit separator
/// (`\x1f`), as their fields, in order; other lines are skipped.
pub open spec fn records(ls: Seq<Seq<char>>, n: nat) -> Seq<Seq<Seq<char>>>
    decreases ls.len(),
{
    if ls.len() == 0 {
        Seq::empty()
    } else {
        let prev = records(ls.drop_last(), n);
        match split_fields(ls.last(), n, '\x1f') {
            Some(f) => prev.push(f),
            None => prev,
        }
    }
}

/// The lines of decoded output `bytes`.
pub open spec fn output_lines(bytes: Seq<u8>) -> Seq<Seq<char>> {
    lines(utf8_lossy(bytes))
}

/// The lines of a process's standard output.
pub fn stdout_lines(o: &GitOutput) -> (r: Vec<Vec<char>>)
    ensures
        cvec(r@) == output_lines(o.stdout@),
{
    let text = lossy_text(o.stdout.as_slice());
    let cs = chars_of(text.as_str());
    let ls = lines_of(cs.as_slice());
    assert(cvec(ls@) =~= lines(cs@));
    ls
}

/// The records of `n` fields among the lines of a process's output.
pub fn stdout_records(o: &GitOutput, n: usize) -> (r: Vec<Vec<Vec<char>>>)
    ensures
        r@.len() == records(output_lines(o.stdout@), n as nat).len(),
        forall|k: int| 0 <= k < r@.len() ==> cvec(#[trigger] r@[k]@) == records(output_lines(o.stdout@), n as nat)[k],
{
    let ls = stdout_lines(o);
    let ghost lv = cvec(ls@);
    let mut out: Vec<Vec<Vec<char>>> = Vec::new();
    let mut i: usize = 0;
    while i < ls.len()
        invariant
            i <= ls.len(),
            lv == cvec(ls@),
            out@.len() == records(lv.take(i as int), n as nat).len(),
            forall|k: int| 0 <= k < out@.len() ==> cvec(#[trigger] out@[k]@) == records(lv.take(i as int), n as nat)[k],
        decreases ls.len() - i,
    {
        proof {
            assert(lv.take(i + 1).drop_last() == lv.take(i as int));
            assert(lv.take(i + 1).last() == ls@[i as int]@);
        }
        match split_fields_exec(ls[i].as_slice(), n, '\x1f') {
            Some(f) => {
                out.push(f);
            },
            None => {},
        }
        i = i + 1;
    }
    assert(lv.take(ls.len() as int) == lv);
    out
}

} // verus!

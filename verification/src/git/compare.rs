//! Comparing versions of a world: the files that differ between two refs,
//! per-type tallies of a snapshot, and chunk-level differences read out of
//! the region files stored at two refs.
use vstd::prelude::*;

use crate::git::protocol::{check_run, cvec, GitOutput, git3, git4, git5, git6, lemma_script_finished, output_at, output_lines, progress_is, run_result, run_script, rvec, script, step_is, stdout_lines, trimmed, trimmed_stdout, Flow, GitErrV, GitError, Progress, Reply, Request, RequestV, Step, StepV};
use crate::world::counts::{has_key, keys_distinct, lemma_sat_add, lemma_tally_bounds, merge_counts, sat, sort_stats, stats_sorted, tally};
use crate::world::chunk::{block_diff_view, blocks_diff_of, blocks_undecodable, entities_undecodable, structures_undecodable, entities_diff_of, entity_diff_view, structure_diff_view, structures_diff_of, chunk_coord_ok, diff_chunk_blocks as world_diff_chunk_blocks, diff_chunk_entities as world_diff_chunk_entities, diff_chunk_structures as world_diff_chunk_structures};
use crate::world::region::{anvil_opens, chunk_diff_view, count_region_blocks, count_region_entities, count_region_structures, diff_region_chunks as world_diff_region_chunks, has_zero_length_slot, parse_region_coords, anvil_slot, slot_zero_length, region_changes, region_chunk, region_coords, region_is_readable, region_readable};
use crate::world::types::{BlockDiff, ChunkDiff, EntityDiff, StructureDiff};
use crate::world::types::{world_error_text};
use crate::world::counts::counted;
use crate::world::nbt::{nbt_accepts, Nbt};
use crate::world::region::{
    block_tally, chunks_parse_to, entity_tally, names_of_roots, region_chunk_list, some_not_nbt,
    some_untallied, structure_tally, tallied_from,
};
use crate::text::{append_chars, append_str, chars_of, find_char, first_index_of, lemma_first_index_of, parse_u64, string_of, sub_chars, unsigned_value};

verus! {

// ---------------------------------------------------------------------------
// Files that differ between two refs
// ---------------------------------------------------------------------------

/// Whether a file was added, modified or deleted between two refs (no
/// rename detection: a rename is a deletion and an addition).
#[derive(Debug, Clone, Copy, PartialEq, Eq, Structural)]
pub enum ChangeStatus {
    Added,
    Modified,
    Deleted,
}

/// One file that differs between two refs, with its size in bytes on each
/// side (`None` on the side where it does not exist).
#[derive(Debug, Clone, PartialEq, Eq)]
pub struct FileChange {
    pub path: String,
    pub status: ChangeStatus,
    pub old_size: Option<u64>,
    pub new_size: Option<u64>,
}

/// A file change as values: path, status, old size, new size.
pub type FileChangeV = (Seq<char>, ChangeStatus, Option<u64>, Option<u64>);

/// The view of a file change.
pub open spec fn file_change_view(c: FileChange) -> FileChangeV {
    (c.path@, c.status, c.old_size, c.new_size)
}

/// The change a `diff --name-status` line reports: a status letter `A`,
/// `M` or `D`, a tab, the path. Other lines report none.
pub open spec fn name_status(line: Seq<char>) -> Option<(Seq<char>, ChangeStatus)> {
    match first_index_of(line, '\t') {
        None => None,
        Some(i) => {
            let code = line.take(i);
            let path = line.skip(i + 1);
            if code == "A"@ {
                Some((path, ChangeStatus::Added))
            } else if code == "M"@ {
                Some((path, ChangeStatus::Modified))
            } else if code == "D"@ {
                Some((path, ChangeStatus::Deleted))
            } else {
                None
            }
        },
    }
}

/// The changes reported by the lines, in order.
pub open spec fn name_statuses(ls: Seq<Seq<char>>) -> Seq<(Seq<char>, ChangeStatus)>
    decreases ls.len(),
{
    if ls.len() == 0 {
        Seq::empty()
    } else {
        let prev = name_statuses(ls.drop_last());
        match name_status(ls.last()) {
            Some(c) => prev.push(c),
            None => prev,
        }
    }
}

/// `<ref>:<path>`, how `cat-file` names a file at a ref.
pub open spec fn at_ref(git_ref: Seq<char>, path: Seq<char>) -> Seq<char> {
    git_ref + ":"@ + path
}

/// The request for the size of `path` at `git_ref`.
pub open spec fn size_req(git_ref: Seq<char>, path: Seq<char>) -> RequestV {
    RequestV::Git(seq!["cat-file"@, "-s"@, at_ref(git_ref, path)])
}

/// The size a `cat-file -s` reply gives: its trimmed output read as a
/// `u64`; any other output is a failure naming the path.
pub open spec fn size_of(r: Reply, path: Seq<char>) -> Result<u64, GitErrV> {
    match run_result(r) {
        Err(e) => Err(e),
        Ok(o) => match unsigned_value(trimmed(o)) {
            Some(v) => if v <= u64::MAX {
                Ok(v as u64)
            } else {
                Err(GitErrV::Failed("unexpected `git cat-file -s` output for "@ + path))
            },
            None => Err(GitErrV::Failed("unexpected `git cat-file -s` output for "@ + path)),
        },
    }
}

/// Reading the sizes of the changes from the `k`-th on, the next reply
/// being `r[j]`: an added file's size at `to`, a deleted file's at
/// `from`, a modified file's at `from` then at `to`; `acc` holds the
/// changes read so far.
pub open spec fn sizes_flow(
    cs: Seq<(Seq<char>, ChangeStatus)>,
    from: Seq<char>,
    to: Seq<char>,
    r: Seq<Reply>,
    k: int,
    j: int,
    acc: Seq<FileChangeV>,
) -> StepV<Seq<FileChangeV>, GitErrV>
    decreases cs.len() - k, 2int,
{
    if k >= cs.len() || k < 0 {
        StepV::Done(Ok(acc))
    } else {
        let (path, st) = cs[k];
        let old_ref = if st is Added {
            None
        } else {
            Some(from)
        };
        match old_ref {
            Some(fr) => if j >= r.len() {
                StepV::Ask(size_req(fr, path))
            } else {
                match size_of(r[j], path) {
                    Err(e) => StepV::Done(Err(e)),
                    Ok(old) => sizes_new(cs, from, to, r, k, j + 1, acc, Some(old)),
                }
            },
            None => sizes_new(cs, from, to, r, k, j, acc, None),
        }
    }
}

/// The second half of reading change `k`'s sizes: its size at `to`
/// unless it was deleted.
pub open spec fn sizes_new(
    cs: Seq<(Seq<char>, ChangeStatus)>,
    from: Seq<char>,
    to: Seq<char>,
    r: Seq<Reply>,
    k: int,
    j: int,
    acc: Seq<FileChangeV>,
    old: Option<u64>,
) -> StepV<Seq<FileChangeV>, GitErrV>
    decreases cs.len() - k, 1int,
{
    if k >= cs.len() || k < 0 {
        StepV::Done(Ok(acc))
    } else {
        let (path, st) = cs[k];
        if st is Deleted {
            sizes_flow(cs, from, to, r, k + 1, j, acc.push((path, st, old, None)))
        } else if j >= r.len() {
            StepV::Ask(size_req(to, path))
        } else {
            match size_of(r[j], path) {
                Err(e) => StepV::Done(Err(e)),
                Ok(new) => sizes_flow(cs, from, to, r, k + 1, j + 1, acc.push((path, st, old, Some(new)))),
            }
        }
    }
}

/// Listing the files that differ between `from` and `to` (`diff
/// --name-status --no-renames`, so a moved file shows as deleted at its
/// old path and added at its new one), each with its size on each side
/// where it exists.
pub open spec fn diff_branches_flow(from: Seq<char>, to: Seq<char>, r: Seq<Reply>) -> StepV<
    Seq<FileChangeV>,
    GitErrV,
> {
    match script(seq![RequestV::Git(seq!["diff"@, "--name-status"@, "--no-renames"@, from, to])], r, 0) {
        Flow::Need(q) => StepV::Ask(q),
        Flow::Failed(e) => StepV::Done(Err(e)),
        Flow::Finished(_, _) => sizes_flow(
            name_statuses(output_lines(run_result(r[0])->Ok_0.stdout@)),
            from,
            to,
            r,
            0,
            1,
            Seq::empty(),
        ),
    }
}

fn name_status_exec(line: &Vec<char>) -> (r: Option<(Vec<char>, ChangeStatus)>)
    ensures
        match r {
            Some(c) => name_status(line@) == Some((c.0@, c.1)),
            None => name_status(line@) is None,
        },
{
    let i = match find_char(line.as_slice(), '\t') {
        Some(i) => i,
        None => {
            return None;
        },
    };
    proof {
        lemma_first_index_of(line@, '\t');
    }
    assert(i < line.len());
    let code = sub_chars(line.as_slice(), 0, i);
    let path = sub_chars(line.as_slice(), i + 1, line.len());
    assert(path@ == line@.skip(i + 1));
    assert(code@ == line@.take(i as int));
    let st = if crate::text::chars_equal_str(code.as_slice(), "A") {
        ChangeStatus::Added
    } else if crate::text::chars_equal_str(code.as_slice(), "M") {
        ChangeStatus::Modified
    } else if crate::text::chars_equal_str(code.as_slice(), "D") {
        ChangeStatus::Deleted
    } else {
        return None;
    };
    Some((path, st))
}

fn at_ref_exec(git_ref: &str, path: &Vec<char>) -> (s: String)
    ensures
        s@ == at_ref(git_ref@, path@),
{
    let mut v = chars_of(git_ref);
    append_str(&mut v, ":");
    append_chars(&mut v, path.as_slice());
    string_of(v.as_slice())
}

/// The size a `cat-file -s` reply gives for `path`.
fn size_of_exec(r: &Reply, path: &Vec<char>) -> (s: Result<u64, GitError>)
    ensures
        match s {
            Ok(v) => size_of(*r, path@) == Ok::<u64, GitErrV>(v),
            Err(e) => size_of(*r, path@) == Err::<u64, GitErrV>(e.view()),
        },
{
    let o = match check_run(r) {
        Err(e) => {
            return Err(e);
        },
        Ok(o) => o,
    };
    let t = trimmed_stdout(o);
    let tc = chars_of(t.as_str());
    match parse_u64(tc.as_slice()) {
        Some(v) => Ok(v),
        None => {
            let mut m = chars_of("unexpected `git cat-file -s` output for ");
            append_chars(&mut m, path.as_slice());
            Err(GitError::CommandFailed(string_of(m.as_slice())))
        },
    }
}

/// The views of file changes.
pub open spec fn changes_view(v: Seq<FileChange>) -> Seq<FileChangeV> {
    v.map_values(|c: FileChange| file_change_view(c))
}

/// Lists every file that differs between `from` and `to`, with its size
/// on each side. File level only: world files are binary.
pub fn diff_branches(from: &str, to: &str, replies: &[Reply]) -> (s: Step<Vec<FileChange>, GitError>)
    ensures
        step_is(
            s,
            diff_branches_flow(from@, to@, replies@),
            |v: Vec<FileChange>| changes_view(v@),
            |e: GitError| e.view(),
        ),
{
    let mut reqs: Vec<Request> = Vec::new();
    reqs.push(git5("diff", "--name-status", "--no-renames", from, to));
    assert(rvec(reqs@) =~= seq![RequestV::Git(seq!["diff"@, "--name-status"@, "--no-renames"@, from@, to@])]);
    assert(replies@.skip(0) == replies@);
    match run_script(reqs, replies, 0) {
        Progress::Need(q) => {
            return Step::Ask(q);
        },
        Progress::Failed(e) => {
            return Step::Done(Err(e));
        },
        Progress::Finished(_, _) => {},
    }
    proof {
        lemma_script_finished(seq![RequestV::Git(seq!["diff"@, "--name-status"@, "--no-renames"@, from@, to@])], replies@, 0);
    }
    let o = output_at(replies, 0);
    let ls = stdout_lines(o);
    let ghost lv = cvec(ls@);
    let mut cs: Vec<(Vec<char>, ChangeStatus)> = Vec::new();
    let mut i: usize = 0;
    while i < ls.len()
        invariant
            i <= ls.len(),
            lv == cvec(ls@),
            cs@.map_values(|c: (Vec<char>, ChangeStatus)| (c.0@, c.1)) == name_statuses(lv.take(i as int)),
        decreases ls.len() - i,
    {
        proof {
            assert(lv.take(i + 1).drop_last() == lv.take(i as int));
            assert(lv.take(i + 1).last() == ls@[i as int]@);
        }
        match name_status_exec(&ls[i]) {
            Some(c) => {
                let ghost before = cs@;
                cs.push(c);
                assert(cs@.map_values(|c: (Vec<char>, ChangeStatus)| (c.0@, c.1)) == before.map_values(
                    |c: (Vec<char>, ChangeStatus)| (c.0@, c.1),
                ).push((c.0@, c.1)));
            },
            None => {},
        }
        i = i + 1;
    }
    assert(lv.take(ls.len() as int) == lv);
    let ghost csv = cs@.map_values(|c: (Vec<char>, ChangeStatus)| (c.0@, c.1));
    let mut out: Vec<FileChange> = Vec::new();
    let mut k: usize = 0;
    let mut j: usize = 1;
    assert(csv == name_statuses(output_lines(run_result(replies@[0])->Ok_0.stdout@)));
    assert(changes_view(out@) =~= Seq::<FileChangeV>::empty());
    while k < cs.len()
        invariant
            k <= cs.len(),
            1 <= j <= replies.len(),
            csv == cs@.map_values(|c: (Vec<char>, ChangeStatus)| (c.0@, c.1)),
            diff_branches_flow(from@, to@, replies@) == sizes_flow(
                csv,
                from@,
                to@,
                replies@,
                k as int,
                j as int,
                changes_view(out@),
            ),
        decreases cs.len() - k,
    {
        let path = &cs[k].0;
        let st = cs[k].1;
        assert(csv[k as int] == (path@, st));
        let mut old: Option<u64> = None;
        if !(st == ChangeStatus::Added) {
            if j >= replies.len() {
                let a = at_ref_exec(from, path);
                return Step::Ask(git3("cat-file", "-s", a.as_str()));
            }
            match size_of_exec(&replies[j], path) {
                Err(e) => {
                    return Step::Done(Err(e));
                },
                Ok(v) => {
                    old = Some(v);
                },
            }
            j = j + 1;
        }
        assert(diff_branches_flow(from@, to@, replies@) == sizes_new(
            csv,
            from@,
            to@,
            replies@,
            k as int,
            j as int,
            changes_view(out@),
            old,
        ));
        let mut new: Option<u64> = None;
        if !(st == ChangeStatus::Deleted) {
            if j >= replies.len() {
                let a = at_ref_exec(to, path);
                return Step::Ask(git3("cat-file", "-s", a.as_str()));
            }
            match size_of_exec(&replies[j], path) {
                Err(e) => {
                    return Step::Done(Err(e));
                },
                Ok(v) => {
                    new = Some(v);
                },
            }
            j = j + 1;
        }
        let c = FileChange { path: string_of(path.as_slice()), status: st, old_size: old, new_size: new };
        let ghost before = out@;
        out.push(c);
        assert(changes_view(out@) == changes_view(before).push(file_change_view(c)));
        k = k + 1;
    }
    Step::Done(Ok(out))
}

// ---------------------------------------------------------------------------
// Tallies of a snapshot
// ---------------------------------------------------------------------------

/// The sum of the counts of `n` over the first `k` tables.
pub open spec fn total(tables: Seq<Vec<(String, u64)>>, n: Seq<char>, k: int) -> int
    decreases k,
{
    if k <= 0 {
        0
    } else {
        total(tables, n, k - 1) + tally(tables[k - 1]@, n)
    }
}

/// Whether one of the first `k` tables has an entry for `n`.
pub open spec fn any_has(tables: Seq<Vec<(String, u64)>>, n: Seq<char>, k: int) -> bool {
    exists|i: int| 0 <= i < k && #[trigger] has_key(tables[i]@, n)
}

proof fn lemma_total_nonneg(tables: Seq<Vec<(String, u64)>>, n: Seq<char>, k: int)
    ensures
        total(tables, n, k) >= 0,
    decreases k,
{
    if k > 0 {
        lemma_total_nonneg(tables, n, k - 1);
        lemma_tally_bounds(tables[k - 1]@, n);
    }
}

/// Sums the per-name counts of several tables (capped at `u64::MAX`),
/// most common first, ties broken by name.
pub fn aggregate_region_stats(tables: &Vec<Vec<(String, u64)>>) -> (r: Vec<(String, u64)>)
    requires
        forall|i: int| 0 <= i < tables.len() ==> keys_distinct(#[trigger] tables@[i]@),
    ensures
        keys_distinct(r@),
        stats_sorted(r@),
        forall|n: Seq<char>| #[trigger] tally(r@, n) == sat(total(tables@, n, tables.len() as int)),
        forall|n: Seq<char>| #[trigger] has_key(r@, n) == any_has(tables@, n, tables.len() as int),
{
    let mut totals: Vec<(String, u64)> = Vec::new();
    let mut k: usize = 0;
    while k < tables.len()
        invariant
            k <= tables.len(),
            forall|i: int| 0 <= i < tables.len() ==> keys_distinct(#[trigger] tables@[i]@),
            keys_distinct(totals@),
            forall|n: Seq<char>| #[trigger] tally(totals@, n) == sat(total(tables@, n, k as int)),
            forall|n: Seq<char>| #[trigger] has_key(totals@, n) == any_has(tables@, n, k as int),
        decreases tables.len() - k,
    {
        let ghost before = totals@;
        merge_counts(&mut totals, &tables[k]);
        proof {
            assert forall|n: Seq<char>| #[trigger] tally(totals@, n) == sat(total(tables@, n, k + 1)) by {
                lemma_total_nonneg(tables@, n, k as int);
                lemma_tally_bounds(tables@[k as int]@, n);
                lemma_sat_add(total(tables@, n, k as int), tally(tables@[k as int]@, n));
            }
            assert forall|n: Seq<char>| #[trigger] has_key(totals@, n) == any_has(tables@, n, k + 1) by {
                if any_has(tables@, n, k + 1) && !has_key(tables@[k as int]@, n) {
                    let i = choose|i: int| 0 <= i < k + 1 && #[trigger] has_key(tables@[i]@, n);
                    assert(any_has(tables@, n, k as int));
                }
            }
        }
        k = k + 1;
    }
    sort_stats(totals)
}

/// The request listing every file under `prefix` at `git_ref`.
pub open spec fn ls_req(git_ref: Seq<char>, prefix: Seq<char>) -> RequestV {
    RequestV::Git(seq!["ls-tree"@, "-r"@, "--name-only"@, git_ref, "--"@, prefix])
}

/// The request for the contents of `path` at `git_ref`.
pub open spec fn blob_req(git_ref: Seq<char>, path: Seq<char>) -> RequestV {
    RequestV::Git(seq!["cat-file"@, "-p"@, at_ref(git_ref, path)])
}

/// Reading the contents of the `k`-th file on, the contents of file `i`
/// being the reply at `1 + i`.
pub open spec fn blobs_flow(paths: Seq<Seq<char>>, git_ref: Seq<char>, r: Seq<Reply>, k: int) -> Flow<()>
    decreases paths.len() - k,
{
    if k >= paths.len() || k < 0 {
        Flow::Finished((), (1 + paths.len()) as nat)
    } else if 1 + k >= r.len() {
        Flow::Need(blob_req(git_ref, paths[k]))
    } else {
        match run_result(r[1 + k]) {
            Err(e) => Flow::Failed(e),
            Ok(_) => blobs_flow(paths, git_ref, r, k + 1),
        }
    }
}

/// What a snapshot's tally reads: the files under `prefix` at `git_ref`
/// (`ls-tree -r --name-only`, one per output line), then each file's
/// contents (`cat-file -p`), in order.
pub open spec fn stats_reads(prefix: Seq<char>, git_ref: Seq<char>, r: Seq<Reply>) -> Flow<()> {
    match script(seq![ls_req(git_ref, prefix)], r, 0) {
        Flow::Finished(_, _) => blobs_flow(output_lines(run_result(r[0])->Ok_0.stdout@), git_ref, r, 0),
        other => other,
    }
}

/// What is tallied.
#[derive(Debug, Clone, Copy, PartialEq, Eq, Structural)]
pub enum Tally {
    /// Blocks by bare name, in `region/`.
    Blocks,
    /// Structure starts by type, in `region/`.
    Structures,
    /// Entities by id, in `entities/`.
    Entities,
}

/// What each chunk contributes to a tally of `kind`.
pub open spec fn kind_tally(kind: Tally) -> spec_fn(Nbt) -> Option<Seq<Seq<char>>> {
    match kind {
        Tally::Blocks => block_tally(),
        Tally::Structures => structure_tally(),
        Tally::Entities => entity_tally(),
    }
}

/// `c` is a tally of `kind` over every chunk of the region file `bytes`.
pub open spec fn region_tallied(kind: Tally, bytes: Seq<u8>, c: Seq<(String, u64)>) -> bool {
    region_chunk_list(bytes, 1024) is Some && tallied_from(region_chunk_list(bytes, 1024)->0, c, kind_tally(kind))
}

/// A region file whose contents cannot be tallied for `kind`: a slot
/// with a stored length of 0, a container that does not open or whose
/// slots cannot be read, a chunk that is not NBT, or some parse of a chunk
/// that contributes nothing.
pub open spec fn region_untallyable(kind: Tally, b: Seq<u8>) -> bool {
    ||| !region_readable(b)
    ||| !anvil_opens(b)
    ||| region_chunk_list(b, 1024) is None
    ||| some_not_nbt(region_chunk_list(b, 1024)->0)
    ||| some_untallied(region_chunk_list(b, 1024)->0, kind_tally(kind))
}

/// Tallies one region file's contents; it fails only on a file that
/// cannot be tallied.
fn count_region(kind: Tally, bytes: &[u8], path: &Vec<char>) -> (r: Result<Vec<(String, u64)>, GitError>)
    ensures
        r matches Ok(c) ==> keys_distinct(c@) && region_tallied(kind, bytes@, c@),
        r matches Err(e) ==> e is CommandFailed,
        r is Err ==> region_untallyable(kind, bytes@),
{
    if !region_is_readable(bytes) {
        let mut m = chars_of("a chunk in ");
        append_chars(&mut m, path.as_slice());
        append_str(&mut m, " has a stored length of 0");
        return Err(GitError::CommandFailed(string_of(m.as_slice())));
    }
    let c = match kind {
        Tally::Blocks => count_region_blocks(bytes),
        Tally::Structures => count_region_structures(bytes),
        Tally::Entities => count_region_entities(bytes),
    };
    match c {
        Ok(c) => {
            proof {
                let l = region_chunk_list(bytes@, 1024)->0;
                let roots = choose|roots: Seq<Nbt>|
                    #[trigger] chunks_parse_to(l, roots) && names_of_roots(roots, kind_tally(kind)) is Some
                        && counted(Seq::empty(), c@, names_of_roots(roots, kind_tally(kind))->0);
                assert(keys_distinct(c@));
            }
            Ok(c)
        },
        Err(e) => Err(GitError::CommandFailed(world_error_text(&e))),
    }
}

/// One of the files listed (by the first reply) and already read (by a
/// later reply) cannot be tallied for `kind`.
pub open spec fn some_file_untallyable(kind: Tally, r: Seq<Reply>) -> bool {
    &&& r.len() > 0
    &&& run_result(r[0]) is Ok
    &&& exists|i: int|
        0 <= i && 1 + i < r.len() && i < output_lines(run_result(r[0])->Ok_0.stdout@).len()
            && run_result(r[1 + i]) is Ok && #[trigger] region_untallyable(
            kind,
            run_result(r[1 + i])->Ok_0.stdout@,
        )
}

/// Whether `s` is the move a tally makes: the reads `stats_reads`
/// describes, each file tallied as soon as it is read; a file whose
/// contents cannot be tallied stops it with a failed command, and nothing
/// else does but a failed read. Once every file is read and tallied, the
/// tally sorted most common first (none when there are no files).
pub open spec fn stats_step_is(
    s: Step<Vec<(String, u64)>, GitError>,
    kind: Tally,
    prefix: Seq<char>,
    git_ref: Seq<char>,
    r: Seq<Reply>,
) -> bool {
    &&& (s matches Step::Done(Err(e)) && e is Spawn) ==> stats_reads(prefix, git_ref, r) == Flow::<()>::Failed(s->Done_0->Err_0.view())
    &&& match stats_reads(prefix, git_ref, r) {
        Flow::Need(q) => {
            &&& s matches Step::Ask(a) ==> a.view() == q
            &&& s matches Step::Done(x) ==> x matches Err(e) && e is CommandFailed && some_file_untallyable(kind, r)
        },
        Flow::Failed(e) => s matches Step::Done(Err(x)) && (x.view() == e || (x is CommandFailed
            && some_file_untallyable(kind, r))),
        Flow::Finished(_, _) => {
            &&& s is Done
            &&& s->Done_0 matches Ok(v) ==> keys_distinct(v@) && stats_sorted(v@) && sums_of_files(
                kind,
                output_lines(run_result(r[0])->Ok_0.stdout@).len() as int,
                r,
                v@,
            )
            &&& s->Done_0 matches Err(e) ==> e is CommandFailed
            &&& s->Done_0 is Err ==> some_file_untallyable(kind, r)
            &&& output_lines(run_result(r[0])->Ok_0.stdout@).len() == 0 ==> (s->Done_0 matches Ok(v)
                && v@.len() == 0)
        },
    }
}

/// `v` sums the tallies of `kind` of the `n` files whose contents are
/// the replies after the first: each file's tally counts what some parse
/// of each of its chunks contributes, and `v` holds each name's total
/// (capped at `u64::MAX`) and nothing else.
pub open spec fn sums_of_files(kind: Tally, n: int, r: Seq<Reply>, v: Seq<(String, u64)>) -> bool {
    exists|tables: Seq<Vec<(String, u64)>>|
        #[trigger] files_tallied(kind, r, tables) && tables.len() == n && (forall|m: Seq<char>|
            #[trigger] tally(v, m) == sat(total(tables, m, n))) && (forall|m: Seq<char>|
            #[trigger] has_key(v, m) == any_has(tables, m, n))
}

/// Each table is a tally of `kind` over the file whose contents are the
/// reply after the first, in order.
pub open spec fn files_tallied(kind: Tally, r: Seq<Reply>, tables: Seq<Vec<(String, u64)>>) -> bool
    decreases tables.len(),
{
    if tables.len() == 0 {
        true
    } else {
        let i = tables.len() - 1;
        &&& files_tallied(kind, r, tables.drop_last())
        &&& run_result(r[1 + i]) is Ok
        &&& region_tallied(kind, run_result(r[1 + i])->Ok_0.stdout@, tables.last()@)
    }
}

/// Tallies `kind` over every region file under `prefix` at `git_ref`.
fn stats_step(kind: Tally, prefix: &str, git_ref: &str, replies: &[Reply]) -> (s: Step<Vec<(String, u64)>, GitError>)
    ensures
        stats_step_is(s, kind, prefix@, git_ref@, replies@),
{
    let mut reqs: Vec<Request> = Vec::new();
    reqs.push(git6("ls-tree", "-r", "--name-only", git_ref, "--", prefix));
    assert(rvec(reqs@) =~= seq![ls_req(git_ref@, prefix@)]);
    assert(replies@.skip(0) == replies@);
    match run_script(reqs, replies, 0) {
        Progress::Need(q) => {
            return Step::Ask(q);
        },
        Progress::Failed(e) => {
            return Step::Done(Err(e));
        },
        Progress::Finished(_, _) => {},
    }
    proof {
        lemma_script_finished(seq![ls_req(git_ref@, prefix@)], replies@, 0);
        assert(run_result(replies@[0]) is Ok);
    }
    let paths = stdout_lines(output_at(replies, 0));
    let ghost pv = cvec(paths@);
    let mut tables: Vec<Vec<(String, u64)>> = Vec::new();
    let mut k: usize = 0;
    while k < paths.len()
        invariant
            k <= paths.len(),
            pv == cvec(paths@),
            pv == output_lines(run_result(replies@[0])->Ok_0.stdout@),
            replies.len() > 0,
            run_result(replies@[0]) is Ok,
            stats_reads(prefix@, git_ref@, replies@) == blobs_flow(pv, git_ref@, replies@, k as int),
            forall|i: int| 0 <= i < tables.len() ==> keys_distinct(#[trigger] tables@[i]@),
            files_tallied(kind, replies@, tables@),
            tables.len() == k,
        decreases paths.len() - k,
    {
        let a = at_ref_exec(git_ref, &paths[k]);
        if k + 1 >= replies.len() {
            return Step::Ask(git3("cat-file", "-p", a.as_str()));
        }
        let o = match check_run(&replies[k + 1]) {
            Err(e) => {
                return Step::Done(Err(e));
            },
            Ok(o) => o,
        };
        proof {
            assert(run_result(replies@[1 + k as int]) == Ok::<GitOutput, GitErrV>(*o));
        }
        let c = match count_region(kind, o.stdout.as_slice(), &paths[k]) {
            Ok(c) => c,
            Err(e) => {
                proof {
                    lemma_blobs_after(pv, git_ref@, replies@, k + 1);
                    assert(region_untallyable(kind, run_result(replies@[1 + k as int])->Ok_0.stdout@));
                    assert(pv.len() == paths@.len());
                    assert(run_result(replies@[0]) is Ok);
                    assert(k < output_lines(run_result(replies@[0])->Ok_0.stdout@).len());
                    assert(some_file_untallyable(kind, replies@));
                }
                return Step::Done(Err(e));
            },
        };
        let ghost before = tables@;
        proof {
            assert(run_result(replies@[1 + k as int]) == Ok::<GitOutput, GitErrV>(*o));
        }
        tables.push(c);
        proof {
            assert(tables@.drop_last() == before);
        }
        k = k + 1;
    }
    let stats = aggregate_region_stats(&tables);
    proof {
        assert(sums_of_files(kind, pv.len() as int, replies@, stats@)) by {
            assert(tables@.len() == pv.len());
        }
        if pv.len() == 0 {
            assert(tables.len() == 0);
            assert forall|n: Seq<char>| !#[trigger] has_key(stats@, n) by {}
            if stats@.len() > 0 {
                assert(has_key(stats@, stats@[0].0@));
            }
        }
    }
    Step::Done(Ok(stats))
}

/// Reading files from the `k`-th on never fails with a spawn error
/// unless a reply from `1 + k` on says so; what it is in general.
proof fn lemma_blobs_after(paths: Seq<Seq<char>>, git_ref: Seq<char>, r: Seq<Reply>, k: int)
    requires
        0 <= k,
    ensures
        blobs_flow(paths, git_ref, r, k) is Need || blobs_flow(paths, git_ref, r, k) is Failed
            || blobs_flow(paths, git_ref, r, k) is Finished,
    decreases paths.len() - k,
{
}

/// Aggregates block counts (by bare name) across every region file in
/// `region/` at `git_ref`, most common block first (ties by name).
pub fn world_block_stats(git_ref: &str, replies: &[Reply]) -> (s: Step<Vec<(String, u64)>, GitError>)
    ensures
        stats_step_is(s, Tally::Blocks, "region/"@, git_ref@, replies@),
{
    stats_step(Tally::Blocks, "region/", git_ref, replies)
}

/// Aggregates structure counts (by type) across every region file in
/// `region/` at `git_ref`, each structure counted once, most common first.
pub fn world_structure_stats(git_ref: &str, replies: &[Reply]) -> (s: Step<Vec<(String, u64)>, GitError>)
    ensures
        stats_step_is(s, Tally::Structures, "region/"@, git_ref@, replies@),
{
    stats_step(Tally::Structures, "region/", git_ref, replies)
}

/// Aggregates entity counts (by id) across every region file in
/// `entities/` at `git_ref`, most common first.
pub fn world_entity_stats(git_ref: &str, replies: &[Reply]) -> (s: Step<Vec<(String, u64)>, GitError>)
    ensures
        stats_step_is(s, Tally::Entities, "entities/"@, git_ref@, replies@),
{
    stats_step(Tally::Entities, "entities/", git_ref, replies)
}

// ---------------------------------------------------------------------------
// Chunk differences between two refs
// ---------------------------------------------------------------------------

/// The part of `path` after its last `/` (all of it when it has none).
pub open spec fn file_name(path: Seq<char>) -> Seq<char>
    decreases path.len(),
{
    if path.len() == 0 {
        path
    } else if path.last() == '/' {
        Seq::empty()
    } else {
        file_name(path.drop_last()).push(path.last())
    }
}

proof fn lemma_file_name_suffix(path: Seq<char>, i: int)
    requires
        0 <= i <= path.len(),
        i == 0 || path[i - 1] == '/',
        forall|j: int| i <= j < path.len() ==> path[j] != '/',
    ensures
        file_name(path) == path.skip(i),
    decreases path.len() - i,
{
    if path.len() > i {
        lemma_file_name_suffix(path.drop_last(), i);
        assert(path.drop_last().skip(i).push(path.last()) == path.skip(i));
    } else if i > 0 {
        assert(path.skip(i).len() == 0);
    } else {
        assert(path.len() == 0);
    }
}

/// The part of `path` after its last `/`.
fn file_name_exec(path: &Vec<char>) -> (r: Vec<char>)
    ensures
        r@ == file_name(path@),
{
    let mut i: usize = path.len();
    while i > 0 && path[i - 1] != '/'
        invariant
            i <= path.len(),
            forall|j: int| i <= j < path.len() ==> path@[j] != '/',
        decreases i,
    {
        i = i - 1;
    }
    proof {
        lemma_file_name_suffix(path@, i as int);
    }
    sub_chars(path.as_slice(), i, path.len())
}

/// The failure for a path that does not name a region file.
pub open spec fn not_region_message(path: Seq<char>) -> Seq<char> {
    "not a region file path: "@ + path
}

/// The region coordinates named by `path`, or the failure.
fn path_coords(path: &str) -> (r: Result<(i32, i32), GitError>)
    ensures
        match r {
            Ok((x, z)) => region_coords(file_name(path@)) == Some((x as int, z as int)),
            Err(e) => region_coords(file_name(path@)) is None && e.view() == GitErrV::Failed(
                not_region_message(path@),
            ),
        },
{
    let pc = chars_of(path);
    let f = file_name_exec(&pc);
    let fs = string_of(f.as_slice());
    match parse_region_coords(fs.as_str()) {
        Some(c) => Ok(c),
        None => {
            let mut m = chars_of("not a region file path: ");
            append_str(&mut m, path);
            Err(GitError::CommandFailed(string_of(m.as_slice())))
        },
    }
}

/// Reading one file at two refs: `cat-file -p` at `from`, then at `to`.
pub open spec fn pair_reads(from: Seq<char>, to: Seq<char>, path: Seq<char>) -> Seq<RequestV> {
    seq![blob_req(from, path), blob_req(to, path)]
}

/// The failure for region data that cannot be compared.
pub open spec fn unreadable_message() -> Seq<char> {
    "region data cannot be compared"@
}

/// Whether `s` is the move of diffing the chunks of region file `path`
/// between `from` and `to`: the coordinates come from the file name
/// (`r.<x>.<z>.mca`); the file is read at both refs; regions holding a
/// chunk of stored length 0, or whose chunks fall outside `i32`
/// coordinates, are refused; otherwise the chunk slots that differ, or a
/// failed command when a region cannot be read.
pub open spec fn region_diff_step_is(
    s: Step<Vec<ChunkDiff>, GitError>,
    from: Seq<char>,
    to: Seq<char>,
    path: Seq<char>,
    r: Seq<Reply>,
) -> bool {
    match region_coords(file_name(path)) {
        None => s matches Step::Done(Err(e)) && e.view() == GitErrV::Failed(not_region_message(path)),
        Some((rx, rz)) => match script(pair_reads(from, to, path), r, 0) {
            Flow::Need(q) => s matches Step::Ask(a) && a.view() == q,
            Flow::Failed(e) => s matches Step::Done(Err(x)) && x.view() == e,
            Flow::Finished(_, _) => {
                let fb = run_result(r[0])->Ok_0.stdout@;
                let tb = run_result(r[1])->Ok_0.stdout@;
                if !region_readable(fb) || !region_readable(tb) || !(-67108864 <= rx <= 67108863)
                    || !(-67108864 <= rz <= 67108863) {
                    s matches Step::Done(Err(e)) && e.view() == GitErrV::Failed(unreadable_message())
                } else {
                    &&& s is Done
                    &&& (s->Done_0 is Ok <==> (anvil_opens(fb) && anvil_opens(tb) && region_changes(
                        fb,
                        tb,
                        rx,
                        rz,
                        1024,
                    ) is Some))
                    &&& s->Done_0 matches Ok(v) ==> region_changes(fb, tb, rx, rz, 1024) == Some(
                        v@.map_values(|d: ChunkDiff| chunk_diff_view(d)),
                    )
                    &&& s->Done_0 matches Err(e) ==> e is CommandFailed
                }
            },
        },
    }
}

/// Reads `path` at `from` and `to`, the replies at 0 and 1.
fn read_pair(from: &str, to: &str, path: &str, replies: &[Reply]) -> (p: Progress<()>)
    ensures
        progress_is(p, script(pair_reads(from@, to@, path@), replies@, 0), |u: ()| u),
{
    let pc = chars_of(path);
    let a = at_ref_exec(from, &pc);
    let b = at_ref_exec(to, &pc);
    let mut reqs: Vec<Request> = Vec::new();
    reqs.push(git3("cat-file", "-p", a.as_str()));
    reqs.push(git3("cat-file", "-p", b.as_str()));
    assert(rvec(reqs@) =~= pair_reads(from@, to@, path@));
    assert(replies@.skip(0) == replies@);
    run_script(reqs, replies, 0)
}

/// Diffs the chunks of a region file (`path`, e.g. `region/r.0.0.mca`)
/// between `from` and `to`: which chunks were added, removed or changed,
/// at their absolute world coordinates.
pub fn diff_region_chunks(from: &str, to: &str, path: &str, replies: &[Reply]) -> (s: Step<Vec<ChunkDiff>, GitError>)
    ensures
        region_diff_step_is(s, from@, to@, path@, replies@),
{
    let (rx, rz) = match path_coords(path) {
        Ok(c) => c,
        Err(e) => {
            return Step::Done(Err(e));
        },
    };
    match read_pair(from, to, path, replies) {
        Progress::Need(q) => {
            return Step::Ask(q);
        },
        Progress::Failed(e) => {
            return Step::Done(Err(e));
        },
        Progress::Finished(_, _) => {},
    }
    proof {
        lemma_script_finished(pair_reads(from@, to@, path@), replies@, 0);
    }
    let fo = output_at(replies, 0);
    let to_out = output_at(replies, 1);
    if !region_is_readable(fo.stdout.as_slice()) || !region_is_readable(to_out.stdout.as_slice())
        || !(-67108864 <= rx && rx <= 67108863) || !(-67108864 <= rz && rz <= 67108863) {
        return Step::Done(Err(GitError::CommandFailed(crate::text::string_lit("region data cannot be compared"))));
    }
    match world_diff_region_chunks(fo.stdout.as_slice(), to_out.stdout.as_slice(), rx, rz) {
        Ok(v) => Step::Done(Ok(v)),
        Err(e) => Step::Done(Err(GitError::CommandFailed(world_error_text(&e)))),
    }
}

/// The chunk in slot (`lx`, `lz`) of region bytes, when the slot is in
/// range, can be read, and holds one.
pub open spec fn chunk_in(bytes: Seq<u8>, lx: int, lz: int) -> Option<Seq<u8>> {
    if 0 <= lx < 32 && 0 <= lz < 32 && !slot_zero_length(bytes, lx, lz) && anvil_opens(bytes) {
        match anvil_slot(bytes, lx, lz) {
            Some(Some(c)) => Some(c),
            _ => None,
        }
    } else {
        None
    }
}

/// The chunk in slot (`lx`, `lz`) of region bytes, or the failure.
fn chunk_in_exec(bytes: &[u8], lx: i64, lz: i64, git_ref: &str, path: &str) -> (r: Result<Vec<u8>, GitError>)
    ensures
        match r {
            Ok(c) => chunk_in(bytes@, lx as int, lz as int) == Some(c@),
            Err(e) => chunk_in(bytes@, lx as int, lz as int) is None && e is CommandFailed,
        },
{
    if !(0 <= lx && lx < 32 && 0 <= lz && lz < 32) {
        let mut m = chars_of("invalid offset: x = ");
        let xs = crate::text::i64_decimal(lx);
        append_chars(&mut m, xs.as_slice());
        append_str(&mut m, ", z = ");
        let zs = crate::text::i64_decimal(lz);
        append_chars(&mut m, zs.as_slice());
        return Err(GitError::CommandFailed(string_of(m.as_slice())));
    }
    let x = lx as usize;
    let z = lz as usize;
    if has_zero_length_slot(bytes, x, z) {
        return Err(GitError::CommandFailed(crate::text::string_lit("region data cannot be compared")));
    }
    match region_chunk(bytes, x, z) {
        Ok(Some(c)) => Ok(c),
        Ok(None) => {
            let mut m = chars_of("chunk (");
            let xs = crate::text::i64_decimal(lx);
            append_chars(&mut m, xs.as_slice());
            append_str(&mut m, ",");
            let zs = crate::text::i64_decimal(lz);
            append_chars(&mut m, zs.as_slice());
            append_str(&mut m, ") not found in ");
            append_str(&mut m, path);
            append_str(&mut m, "@");
            append_str(&mut m, git_ref);
            Err(GitError::CommandFailed(string_of(m.as_slice())))
        },
        Err(e) => Err(GitError::CommandFailed(world_error_text(&e))),
    }
}

/// Whether `s` is the move of diffing one chunk of region file `path`
/// between `from` and `to`, given what the two chunks' NBT yield (`ok`)
/// and when they cannot be compared (`bad`): the coordinates come from
/// the file name; the chunk's local slot is its absolute position minus
/// the region's; the file is read at `from` and its chunk taken, then the
/// same at `to`; once both chunks are in hand the diff fails only where
/// `bad` holds of them.
pub open spec fn chunk_diff_step_is<T>(
    s: Step<T, GitError>,
    from: Seq<char>,
    to: Seq<char>,
    path: Seq<char>,
    cx: int,
    cz: int,
    r: Seq<Reply>,
    ok: spec_fn(Seq<u8>, Seq<u8>, T) -> bool,
    bad: spec_fn(Seq<u8>, Seq<u8>) -> bool,
) -> bool {
    match region_coords(file_name(path)) {
        None => s matches Step::Done(Err(e)) && e.view() == GitErrV::Failed(not_region_message(path)),
        Some((rx, rz)) => {
            let lx = cx - rx * 32;
            let lz = cz - rz * 32;
            if r.len() == 0 {
                s matches Step::Ask(a) && a.view() == blob_req(from, path)
            } else {
                match run_result(r[0]) {
                    Err(e) => s matches Step::Done(Err(x)) && x.view() == e,
                    Ok(o) => match chunk_in(o.stdout@, lx, lz) {
                        None => s matches Step::Done(Err(x)) && x is CommandFailed,
                        Some(_) => if r.len() == 1 {
                            s matches Step::Ask(a) && a.view() == blob_req(to, path)
                        } else {
                            match run_result(r[1]) {
                                Err(e) => s matches Step::Done(Err(x)) && x.view() == e,
                                Ok(o2) => match chunk_in(o2.stdout@, lx, lz) {
                                    None => s matches Step::Done(Err(x)) && x is CommandFailed,
                                    Some(tc) => {
                                        &&& s is Done
                                        &&& s->Done_0 matches Ok(v) ==> ok(
                                            chunk_in(o.stdout@, lx, lz)->0,
                                            tc,
                                            v,
                                        )
                                        &&& s->Done_0 matches Err(e) ==> e is CommandFailed
                                        &&& s->Done_0 is Err ==> bad(chunk_in(o.stdout@, lx, lz)->0, tc)
                                    },
                                },
                            }
                        },
                    },
                }
            }
        },
    }
}

/// The two chunks to compare, or the move to make first.
fn chunk_pair<T>(from: &str, to: &str, path: &str, chunk_x: i32, chunk_z: i32, replies: &[Reply]) -> (r:
    Result<(Vec<u8>, Vec<u8>), Step<T, GitError>>)
    ensures
        match r {
            Err(s) => chunk_diff_step_is(s, from@, to@, path@, chunk_x as int, chunk_z as int, replies@, |a: Seq<u8>, b: Seq<u8>, v: T| false, |a: Seq<u8>, b: Seq<u8>| false),
            Ok((fc, tc)) => {
                &&& region_coords(file_name(path@)) matches Some((rx, rz))
                &&& replies.len() >= 2
                &&& run_result(replies@[0]) is Ok && run_result(replies@[1]) is Ok
                &&& chunk_in(run_result(replies@[0])->Ok_0.stdout@, chunk_x - rx * 32, chunk_z - rz * 32) == Some(fc@)
                &&& chunk_in(run_result(replies@[1])->Ok_0.stdout@, chunk_x - rx * 32, chunk_z - rz * 32) == Some(tc@)
            },
        },
{
    let (rx, rz) = match path_coords(path) {
        Ok(c) => c,
        Err(e) => {
            return Err(Step::Done(Err(e)));
        },
    };
    let lx: i64 = chunk_x as i64 - (rx as i64) * 32;
    let lz: i64 = chunk_z as i64 - (rz as i64) * 32;
    let pc = chars_of(path);
    if replies.len() == 0 {
        let a = at_ref_exec(from, &pc);
        return Err(Step::Ask(git3("cat-file", "-p", a.as_str())));
    }
    let o = match check_run(&replies[0]) {
        Err(e) => {
            return Err(Step::Done(Err(e)));
        },
        Ok(o) => o,
    };
    let fc = match chunk_in_exec(o.stdout.as_slice(), lx, lz, from, path) {
        Ok(c) => c,
        Err(e) => {
            return Err(Step::Done(Err(e)));
        },
    };
    if replies.len() == 1 {
        let b = at_ref_exec(to, &pc);
        return Err(Step::Ask(git3("cat-file", "-p", b.as_str())));
    }
    let o2 = match check_run(&replies[1]) {
        Err(e) => {
            return Err(Step::Done(Err(e)));
        },
        Ok(o) => o,
    };
    let tc = match chunk_in_exec(o2.stdout.as_slice(), lx, lz, to, path) {
        Ok(c) => c,
        Err(e) => {
            return Err(Step::Done(Err(e)));
        },
    };
    Ok((fc, tc))
}

/// Diffs one chunk's blocks (`chunk_x`, `chunk_z` absolute) between
/// `from` and `to`, reading it out of region file `path` at both refs:
/// which blocks changed, at absolute positions, and from what to what.
pub fn diff_chunk_blocks(from: &str, to: &str, path: &str, chunk_x: i32, chunk_z: i32, replies: &[Reply]) -> (s:
    Step<Vec<BlockDiff>, GitError>)
    requires
        chunk_coord_ok(chunk_x),
        chunk_coord_ok(chunk_z),
    ensures
        chunk_diff_step_is(
            s,
            from@,
            to@,
            path@,
            chunk_x as int,
            chunk_z as int,
            replies@,
            |fc: Seq<u8>, tc: Seq<u8>, v: Vec<BlockDiff>| blocks_diff_of(
                fc,
                tc,
                chunk_x as int,
                chunk_z as int,
                v@.map_values(|d: BlockDiff| block_diff_view(d)),
            ),
            |fc: Seq<u8>, tc: Seq<u8>| !nbt_accepts(fc) || !nbt_accepts(tc) || blocks_undecodable(fc, tc),
        ),
{
    let (fc, tc) = match chunk_pair(from, to, path, chunk_x, chunk_z, replies) {
        Ok(p) => p,
        Err(s) => {
            return s;
        },
    };
    match world_diff_chunk_blocks(fc.as_slice(), tc.as_slice(), chunk_x, chunk_z) {
        Ok(v) => Step::Done(Ok(v)),
        Err(e) => Step::Done(Err(GitError::CommandFailed(world_error_text(&e)))),
    }
}

/// Diffs one chunk's entities (by UUID) between `from` and `to`, reading
/// it out of `entities/` region file `path` at both refs: which left and
/// which arrived.
pub fn diff_chunk_entities(from: &str, to: &str, path: &str, chunk_x: i32, chunk_z: i32, replies: &[Reply]) -> (s:
    Step<Vec<EntityDiff>, GitError>)
    ensures
        chunk_diff_step_is(
            s,
            from@,
            to@,
            path@,
            chunk_x as int,
            chunk_z as int,
            replies@,
            |fc: Seq<u8>, tc: Seq<u8>, v: Vec<EntityDiff>| entities_diff_of(
                fc,
                tc,
                v@.map_values(|d: EntityDiff| entity_diff_view(d)),
            ),
            |fc: Seq<u8>, tc: Seq<u8>| !nbt_accepts(fc) || !nbt_accepts(tc) || entities_undecodable(fc, tc),
        ),
{
    let (fc, tc) = match chunk_pair(from, to, path, chunk_x, chunk_z, replies) {
        Ok(p) => p,
        Err(s) => {
            return s;
        },
    };
    match world_diff_chunk_entities(fc.as_slice(), tc.as_slice()) {
        Ok(v) => Step::Done(Ok(v)),
        Err(e) => Step::Done(Err(GitError::CommandFailed(world_error_text(&e)))),
    }
}

/// Diffs one chunk's structure starts (by type) between `from` and `to`,
/// reading it out of `region/` file `path` at both refs.
pub fn diff_chunk_structures(from: &str, to: &str, path: &str, chunk_x: i32, chunk_z: i32, replies: &[Reply]) -> (s:
    Step<Vec<StructureDiff>, GitError>)
    ensures
        chunk_diff_step_is(
            s,
            from@,
            to@,
            path@,
            chunk_x as int,
            chunk_z as int,
            replies@,
            |fc: Seq<u8>, tc: Seq<u8>, v: Vec<StructureDiff>| structures_diff_of(
                fc,
                tc,
                v@.map_values(|d: StructureDiff| structure_diff_view(d)),
            ),
            |fc: Seq<u8>, tc: Seq<u8>| !nbt_accepts(fc) || !nbt_accepts(tc) || structures_undecodable(fc, tc),
        ),
{
    let (fc, tc) = match chunk_pair(from, to, path, chunk_x, chunk_z, replies) {
        Ok(p) => p,
        Err(s) => {
            return s;
        },
    };
    match world_diff_chunk_structures(fc.as_slice(), tc.as_slice()) {
        Ok(v) => Step::Done(Ok(v)),
        Err(e) => Step::Done(Err(GitError::CommandFailed(world_error_text(&e)))),
    }
}

} // verus!

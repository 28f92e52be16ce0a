//! Properties that hold across the operations on a world's history:
//! operations that rewrite the world check first that it is closed and
//! are refused while it is open, a merge is refused while another is in
//! progress, and excluding `session.lock` is done once.
use vstd::prelude::*;

use crate::git::compare::{region_tallied, Tally};
use crate::git::history::{
    delete_flow, delete_reads, exclude_update, open_gate, rebuild_chain, rebuild_req, restore_flow,
    switch_branch_flow, CommitV, GuardErrV,
};
use crate::git::protocol::{run_result, trimmed, Flow};
use crate::world::chunk::chunk_structure_starts;
use crate::world::counts::{has_key, occ, sat, tally};
use crate::world::nbt::Nbt;
use crate::world::region::{chunks_parse_to, names_of_roots, region_chunk_list, structure_tally};
use crate::git::merge::{merge_branch_flow, resolve_flow, MergeV, Side};
use crate::git::protocol::{Reply, RequestV, StepV};
use crate::text::{first_index_of, lemma_first_index_of, lemma_first_index_of_unique, lines, strip_cr};

verus! {

/// Restoring, deleting a snapshot, switching branches, merging and
/// resolving a conflict all start by asking whether the world is open,
/// before any `git` command.
pub proof fn lemma_open_check_first(
    hash: Seq<char>,
    branch: Seq<char>,
    path: Seq<char>,
    keep: Side,
    name: Seq<char>,
    email: Seq<char>,
)
    ensures
        restore_flow(hash, name, email, Seq::empty()) == StepV::<(CommitV, CommitV), GuardErrV>::Ask(
            RequestV::IsOpen,
        ),
        delete_flow(hash, Seq::empty()) == StepV::<(), GuardErrV>::Ask(RequestV::IsOpen),
        switch_branch_flow(branch, name, email, Seq::empty()) == StepV::<
            (CommitV, Seq<char>),
            GuardErrV,
        >::Ask(RequestV::IsOpen),
        merge_branch_flow(branch, name, email, Seq::empty()) == StepV::<MergeV, GuardErrV>::Ask(
            RequestV::IsOpen,
        ),
        resolve_flow(path, keep, Seq::empty()) == StepV::<(), GuardErrV>::Ask(RequestV::IsOpen),
{
}

/// While the world is open in Minecraft, restoring, deleting a snapshot,
/// switching branches, merging and resolving a conflict are refused with
/// `WorldCurrentlyOpen`, having asked nothing but whether it is open.
pub proof fn lemma_open_world_refused(
    hash: Seq<char>,
    branch: Seq<char>,
    path: Seq<char>,
    keep: Side,
    name: Seq<char>,
    email: Seq<char>,
    r: Seq<Reply>,
)
    requires
        r.len() > 0,
        r[0] == Reply::Open(Ok::<bool, String>(true)),
    ensures
        restore_flow(hash, name, email, r) == StepV::<(CommitV, CommitV), GuardErrV>::Done(
            Err(GuardErrV::WorldCurrentlyOpen),
        ),
        delete_flow(hash, r) == StepV::<(), GuardErrV>::Done(Err(GuardErrV::WorldCurrentlyOpen)),
        switch_branch_flow(branch, name, email, r) == StepV::<(CommitV, Seq<char>), GuardErrV>::Done(
            Err(GuardErrV::WorldCurrentlyOpen),
        ),
        merge_branch_flow(branch, name, email, r) == StepV::<MergeV, GuardErrV>::Done(
            Err(GuardErrV::WorldCurrentlyOpen),
        ),
        resolve_flow(path, keep, r) == StepV::<(), GuardErrV>::Done(Err(GuardErrV::WorldCurrentlyOpen)),
{
}

/// A merge started while another merge is in progress is refused with
/// `AlreadyInProgress`, before any `git` command.
pub proof fn lemma_merge_in_progress_refused(other: Seq<char>, name: Seq<char>, email: Seq<char>, r: Seq<Reply>)
    requires
        r.len() > 1,
        r[0] == Reply::Open(Ok::<bool, String>(false)),
        r[1] == Reply::Flag(true),
    ensures
        merge_branch_flow(other, name, email, r) == StepV::<MergeV, GuardErrV>::Done(
            Err(GuardErrV::AlreadyInProgress),
        ),
{
}

/// After a text that is empty or ends in a newline, the line
/// `session.lock` is one of the lines.
proof fn lemma_lock_line(base: Seq<char>)
    requires
        base.len() == 0 || base.last() == '\n',
    ensures
        lines(base + "session.lock\n"@).contains("session.lock"@),
    decreases base.len(),
{
    reveal_strlit("session.lock\n");
    reveal_strlit("session.lock");
    let x = "session.lock\n"@;
    if base.len() == 0 {
        assert(base + x == x);
        assert forall|j: int| 0 <= j < 12 implies x[j] != '\n' by {}
        lemma_first_index_of_unique(x, '\n', 12);
        assert(x.take(12) == "session.lock"@);
        assert(x.skip(13).len() == 0);
        assert(lines(x)[0] == "session.lock"@);
    } else {
        lemma_first_index_of(base, '\n');
        assert(base[base.len() - 1] == '\n');
        let i = first_index_of(base, '\n')->0;
        let s = base + x;
        assert forall|j: int| 0 <= j < i implies s[j] != '\n' by {
            assert(s[j] == base[j]);
        }
        lemma_first_index_of_unique(s, '\n', i);
        let rest = base.skip(i + 1);
        assert(s.skip(i + 1) == rest + x);
        if rest.len() > 0 {
            assert(rest.last() == base.last());
        }
        lemma_lock_line(rest);
        let l = lines(rest + x);
        let k = choose|k: int| 0 <= k < l.len() && l[k] == "session.lock"@;
        let whole = lines(s);
        assert(whole == seq![strip_cr(s.take(i))] + l);
        assert(whole[k + 1] == "session.lock"@);
    }
}

/// Excluding `session.lock` is done once: the text it writes already
/// excludes it, so doing it again writes nothing.
pub proof fn lemma_exclude_once(existing: Seq<char>)
    ensures
        exclude_update(existing) matches Some(u) ==> exclude_update(u) is None,
{
    if exclude_update(existing) is Some {
        let base = if existing.len() > 0 && existing.last() != '\n' {
            existing.push('\n')
        } else {
            existing
        };
        lemma_lock_line(base);
    }
}

// ---------------------------------------------------------------------------
// Structure statistics
// ---------------------------------------------------------------------------

/// The keys of `structures.starts` of each chunk, chunk after chunk
/// (`None` when a root is not a compound).
pub open spec fn starts_of_all(roots: Seq<Nbt>) -> Option<Seq<Seq<char>>>
    decreases roots.len(),
{
    if roots.len() == 0 {
        Some(Seq::empty())
    } else {
        match (starts_of_all(roots.drop_last()), chunk_structure_starts(roots.last())) {
            (Some(a), Some(b)) => Some(a + b),
            _ => None,
        }
    }
}

proof fn lemma_structure_names(roots: Seq<Nbt>)
    ensures
        names_of_roots(roots, structure_tally()) == starts_of_all(roots),
    decreases roots.len(),
{
    if roots.len() > 0 {
        lemma_structure_names(roots.drop_last());
    }
}

/// A region file tallied for the structure statistics counts structure
/// starts: for a parse of each of its chunks, each name's count is how
/// many times it is a key of a chunk's `structures.starts` (capped at
/// `u64::MAX`), and exactly those names are present.
pub proof fn lemma_structure_tally_counts_starts(b: Seq<u8>, c: Seq<(String, u64)>)
    requires
        region_tallied(Tally::Structures, b, c),
    ensures
        exists|roots: Seq<Nbt>|
            #[trigger] chunks_parse_to(region_chunk_list(b, 1024)->0, roots) && starts_of_all(roots) is Some
                && (forall|n: Seq<char>| #[trigger] tally(c, n) == sat(occ(starts_of_all(roots)->0, n) as int))
                && (forall|n: Seq<char>| #[trigger] has_key(c, n) == (occ(starts_of_all(roots)->0, n) > 0)),
{
    let l = region_chunk_list(b, 1024)->0;
    let roots = choose|roots: Seq<Nbt>|
        #[trigger] chunks_parse_to(l, roots) && names_of_roots(roots, structure_tally()) is Some
            && crate::world::counts::counted(Seq::empty(), c, names_of_roots(roots, structure_tally())->0);
    lemma_structure_names(roots);
    let names = starts_of_all(roots)->0;
    assert forall|n: Seq<char>| #[trigger] tally(c, n) == sat(occ(names, n) as int) by {
        assert(tally(Seq::<(String, u64)>::empty(), n) == 0);
    }
    assert forall|n: Seq<char>| #[trigger] has_key(c, n) == (occ(names, n) > 0) by {
        assert(!has_key(Seq::<(String, u64)>::empty(), n));
    }
}

// ---------------------------------------------------------------------------
// Deleting a snapshot
// ---------------------------------------------------------------------------

/// Deleting `hash` reads its descendants oldest first: the third read is
/// `git log --reverse` over `<hash>..HEAD`, one record per descendant.
pub proof fn lemma_delete_reads_descendants_oldest_first(hash: Seq<char>)
    ensures
        delete_reads(hash).len() == 3,
        delete_reads(hash)[2] matches RequestV::Git(a) && a[0] == "log"@ && a.contains("--reverse"@) && a.last()
            == hash + ".."@ + "HEAD"@,
{
    reveal_strlit("log");
    reveal_strlit("--reverse");
    let a = seq!["log"@, "--reverse"@, "--format=%T\x1f%aI\x1f%cI\x1f%s"@, hash + ".."@ + "HEAD"@];
    assert(a[1] == "--reverse"@);
}

/// Recreating the descendants keeps their order: with the first `k`
/// recreations answered, the next request recreates the `k`-th
/// descendant (its tree, dates and subject) under the commit the
/// previous recreation made (the first under `parent`); once all are
/// recreated, the new tip is the commit made for the last one.
pub proof fn lemma_rebuild_in_order(
    ds: Seq<Seq<Seq<char>>>,
    r: Seq<Reply>,
    parent: Option<Seq<char>>,
    k: int,
)
    requires
        0 <= k <= ds.len(),
        k <= r.len(),
        forall|i: int| 0 <= i < k ==> (#[trigger] run_result(r[i])) is Ok,
    ensures
        k < ds.len() && k == r.len() ==> rebuild_chain(ds, r, 0, parent) == Flow::<Option<Seq<char>>>::Need(
            rebuild_req(ds[k], if k == 0 { parent } else { Some(trimmed(run_result(r[k - 1])->Ok_0)) }),
        ),
        k == ds.len() ==> rebuild_chain(ds, r, 0, parent) == Flow::<Option<Seq<char>>>::Finished(
            if k == 0 { parent } else { Some(trimmed(run_result(r[k - 1])->Ok_0)) },
            ds.len(),
        ),
{
    lemma_rebuild_from(ds, r, parent, 0, k);
}

proof fn lemma_rebuild_from(ds: Seq<Seq<Seq<char>>>, r: Seq<Reply>, parent: Option<Seq<char>>, j: int, k: int)
    requires
        0 <= j <= k <= ds.len(),
        k <= r.len(),
        forall|i: int| 0 <= i < k ==> (#[trigger] run_result(r[i])) is Ok,
    ensures
        rebuild_chain(ds, r, j, if j == 0 { parent } else { Some(trimmed(run_result(r[j - 1])->Ok_0)) })
            == rebuild_chain(ds, r, k, if k == 0 { parent } else { Some(trimmed(run_result(r[k - 1])->Ok_0)) }),
    decreases k - j,
{
    if j < k {
        lemma_rebuild_from(ds, r, parent, j + 1, k);
        assert(run_result(r[j]) is Ok);
    }
}

// ---------------------------------------------------------------------------
// Resolving a conflict
// ---------------------------------------------------------------------------

/// Resolving keeps the side asked for: once the world is known to be
/// closed, keeping ours asks `checkout --ours -- <path>` and keeping
/// theirs asks `checkout --theirs -- <path>`, so the two never ask the
/// same.
pub proof fn lemma_resolve_checks_out_the_chosen_side(path: Seq<char>, r: Seq<Reply>)
    requires
        r.len() == 1,
        open_gate(r) is None,
    ensures
        resolve_flow(path, Side::Ours, r) == StepV::<(), GuardErrV>::Ask(
            RequestV::Git(seq!["checkout"@, "--ours"@, "--"@, path]),
        ),
        resolve_flow(path, Side::Theirs, r) == StepV::<(), GuardErrV>::Ask(
            RequestV::Git(seq!["checkout"@, "--theirs"@, "--"@, path]),
        ),
        resolve_flow(path, Side::Ours, r) != resolve_flow(path, Side::Theirs, r),
{
    reveal_strlit("--ours");
    reveal_strlit("--theirs");
    let a = seq!["checkout"@, "--ours"@, "--"@, path];
    let b = seq!["checkout"@, "--theirs"@, "--"@, path];
    assert("--ours"@.len() != "--theirs"@.len());
    assert(a[1] != b[1]);
}

} // verus!

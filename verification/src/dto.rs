//! What the desktop interface is handed: plain records built from the
//! library's results, with the fixed texts the interface matches on.
use vstd::prelude::*;

use crate::git::compare::{ChangeStatus, FileChange};
use crate::git::history::{CommitOutcome, RestoreOutcome, Snapshot, SwitchOutcome};
use crate::git::merge::{ConflictKind, ConflictedFile, MergeOutcome};
use crate::instance::{InstanceManifest, World};
use crate::java::InstallStage as JavaStage;
use crate::minecraft::{InstallStage as GameStage, VersionEntry};
use crate::store::{status_name, source_name, InstanceRecord, JavaInstallation};
use crate::text::{append_str, chars_of, str_equals, string_lit, string_of};
use crate::world::types::{BlockDiff, ChunkDiff, ChunkStatus, EntityDiff, Presence, StructureDiff};

verus! {

// ---------------------------------------------------------------------------
// Worlds and snapshots
// ---------------------------------------------------------------------------

/// A world of an instance and whether it is versioned.
#[derive(Debug, Clone, PartialEq, Eq)]
pub struct WorldDto {
    pub folder_name: String,
    pub git_enabled: bool,
}

/// The versioning flag that the rows record for `name`: the last row for
/// that folder wins, and a folder with no row is not versioned.
pub open spec fn flag_of(rows: Seq<(String, bool)>, name: Seq<char>) -> bool
    decreases rows.len(),
{
    if rows.len() == 0 {
        false
    } else if rows.last().0@ == name {
        rows.last().1
    } else {
        flag_of(rows.drop_last(), name)
    }
}

/// The versioning flag recorded for `name`.
fn flag_for(rows: &Vec<(String, bool)>, name: &str) -> (r: bool)
    ensures
        r == flag_of(rows@, name@),
{
    let mut k: usize = rows.len();
    assert(rows@.take(k as int) == rows@);
    while k > 0
        invariant
            k <= rows.len(),
            flag_of(rows@, name@) == flag_of(rows@.take(k as int), name@),
        decreases k,
    {
        let ghost t = rows@.take(k as int);
        assert(t.drop_last() == rows@.take(k - 1));
        if str_equals(rows[k - 1].0.as_str(), name) {
            return rows[k - 1].1;
        }
        k = k - 1;
    }
    false
}

/// The worlds found on disk, in their order, each with the versioning
/// flag that the rows record for it (`false` where none does).
pub fn world_dtos(worlds: Vec<World>, rows: &Vec<(String, bool)>) -> (r: Vec<WorldDto>)
    ensures
        r@.len() == worlds@.len(),
        forall|k: int|
            0 <= k < r@.len() ==> (#[trigger] r@[k]).folder_name == worlds@[k].folder_name
                && r@[k].git_enabled == flag_of(rows@, worlds@[k].folder_name@),
{
    let mut r: Vec<WorldDto> = Vec::new();
    let mut k: usize = 0;
    while k < worlds.len()
        invariant
            k <= worlds.len(),
            r@.len() == k,
            forall|j: int|
                0 <= j < k ==> (#[trigger] r@[j]).folder_name == worlds@[j].folder_name
                    && r@[j].git_enabled == flag_of(rows@, worlds@[j].folder_name@),
        decreases worlds.len() - k,
    {
        let name = worlds[k].folder_name.clone();
        let enabled = flag_for(rows, name.as_str());
        r.push(WorldDto { folder_name: name, git_enabled: enabled });
        k = k + 1;
    }
    r
}

/// The outcome of saving a snapshot.
#[derive(Debug, Clone, PartialEq, Eq)]
pub struct SnapshotResultDto {
    pub created: bool,
    pub commit_hash: Option<String>,
}

/// `created` with the new commit's hash, or nothing created.
pub fn snapshot_result_dto(outcome: CommitOutcome) -> (r: SnapshotResultDto)
    ensures
        match outcome {
            CommitOutcome::Created(h) => r.created && r.commit_hash == Some(h),
            CommitOutcome::NothingToCommit => !r.created && r.commit_hash is None,
        },
{
    match outcome {
        CommitOutcome::Created(hash) => SnapshotResultDto { created: true, commit_hash: Some(hash) },
        CommitOutcome::NothingToCommit => SnapshotResultDto { created: false, commit_hash: None },
    }
}

/// One snapshot of a world's history.
#[derive(Debug, Clone, PartialEq, Eq)]
pub struct SnapshotDto {
    pub hash: String,
    pub date: String,
    pub message: String,
}

/// The snapshot's hash, date and message.
pub fn snapshot_dto(s: Snapshot) -> (r: SnapshotDto)
    ensures
        r.hash == s.hash && r.date == s.date && r.message == s.message,
{
    SnapshotDto { hash: s.hash, date: s.date, message: s.message }
}

/// The outcome of restoring a snapshot.
#[derive(Debug, Clone, PartialEq, Eq)]
pub struct RestoreDto {
    pub backup_created: bool,
    pub restored: bool,
}

/// Whether the backup and the restoring commit were each created.
pub fn restore_dto(o: RestoreOutcome) -> (r: RestoreDto)
    ensures
        r.backup_created == (o.backup is Created),
        r.restored == (o.restore is Created),
{
    let backup_created = match o.backup {
        CommitOutcome::Created(_) => true,
        CommitOutcome::NothingToCommit => false,
    };
    let restored = match o.restore {
        CommitOutcome::Created(_) => true,
        CommitOutcome::NothingToCommit => false,
    };
    RestoreDto { backup_created, restored }
}

// ---------------------------------------------------------------------------
// Branches and merges
// ---------------------------------------------------------------------------

/// A branch, and whether it is the one checked out.
#[derive(Debug, Clone, PartialEq, Eq)]
pub struct BranchDto {
    pub name: String,
    pub is_current: bool,
}

/// The branches in their order, each marked current exactly when its
/// name is `current`.
pub fn branch_dtos(current: &str, names: Vec<String>) -> (r: Vec<BranchDto>)
    ensures
        r@.len() == names@.len(),
        forall|k: int|
            0 <= k < r@.len() ==> (#[trigger] r@[k]).name == names@[k] && r@[k].is_current == (
            names@[k]@ == current@),
{
    let mut r: Vec<BranchDto> = Vec::new();
    let mut k: usize = 0;
    while k < names.len()
        invariant
            k <= names.len(),
            r@.len() == k,
            forall|j: int|
                0 <= j < k ==> (#[trigger] r@[j]).name == names@[j] && r@[j].is_current == (
                names@[j]@ == current@),
        decreases names.len() - k,
    {
        let name = names[k].clone();
        let is_current = str_equals(name.as_str(), current);
        r.push(BranchDto { name, is_current });
        k = k + 1;
    }
    r
}

/// The outcome of switching branches.
#[derive(Debug, Clone, PartialEq, Eq)]
pub struct SwitchDto {
    pub checkpoint_created: bool,
    pub branch: String,
}

/// Whether a checkpoint was saved, and the branch now checked out.
pub fn switch_dto(o: SwitchOutcome) -> (r: SwitchDto)
    ensures
        r.checkpoint_created == (o.checkpoint is Created),
        r.branch == o.branch,
{
    let checkpoint_created = match o.checkpoint {
        CommitOutcome::Created(_) => true,
        CommitOutcome::NothingToCommit => false,
    };
    SwitchDto { checkpoint_created, branch: o.branch }
}

/// A file that differs between two branches.
#[derive(Debug, Clone, PartialEq, Eq)]
pub struct FileChangeDto {
    pub path: String,
    pub status: String,
    pub old_size: Option<u64>,
    pub new_size: Option<u64>,
}

/// The text of a change status.
pub open spec fn change_status_text(s: ChangeStatus) -> Seq<char> {
    match s {
        ChangeStatus::Added => "added"@,
        ChangeStatus::Modified => "modified"@,
        ChangeStatus::Deleted => "deleted"@,
    }
}

/// The change with its status as text.
pub fn file_change_dto(c: FileChange) -> (r: FileChangeDto)
    ensures
        r.path == c.path,
        r.status@ == change_status_text(c.status),
        r.old_size == c.old_size,
        r.new_size == c.new_size,
{
    let status = match c.status {
        ChangeStatus::Added => string_lit("added"),
        ChangeStatus::Modified => string_lit("modified"),
        ChangeStatus::Deleted => string_lit("deleted"),
    };
    FileChangeDto { path: c.path, status, old_size: c.old_size, new_size: c.new_size }
}

/// A file with an unresolved merge conflict.
#[derive(Debug, Clone, PartialEq, Eq)]
pub struct ConflictedFileDto {
    pub path: String,
    pub kind: String,
}

/// The text of a conflict kind.
pub open spec fn conflict_kind_text(k: ConflictKind) -> Seq<char> {
    match k {
        ConflictKind::BothModified => "both_modified"@,
        ConflictKind::DeletedByUs => "deleted_by_us"@,
        ConflictKind::DeletedByThem => "deleted_by_them"@,
    }
}

/// The conflict with its kind as text.
pub fn conflicted_file_dto(c: ConflictedFile) -> (r: ConflictedFileDto)
    ensures
        r.path == c.path,
        r.kind@ == conflict_kind_text(c.kind),
{
    let kind = match c.kind {
        ConflictKind::BothModified => string_lit("both_modified"),
        ConflictKind::DeletedByUs => string_lit("deleted_by_us"),
        ConflictKind::DeletedByThem => string_lit("deleted_by_them"),
    };
    ConflictedFileDto { path: c.path, kind }
}

/// The outcome of a merge.
#[derive(Debug, Clone, PartialEq, Eq)]
pub enum MergeOutcomeDto {
    Merged { commit_hash: String },
    ConflictsPending { conflicts: Vec<ConflictedFileDto> },
}

/// A clean merge's commit, or each pending conflict in order.
pub fn merge_outcome_dto(o: MergeOutcome) -> (r: MergeOutcomeDto)
    ensures
        match o {
            MergeOutcome::Merged(h) => r == (MergeOutcomeDto::Merged { commit_hash: h }),
            MergeOutcome::ConflictsPending(cs) => r matches MergeOutcomeDto::ConflictsPending {
                conflicts,
            } && conflicts@.len() == cs@.len() && forall|k: int|
                0 <= k < cs@.len() ==> (#[trigger] conflicts@[k]).path == cs@[k].path
                    && conflicts@[k].kind@ == conflict_kind_text(cs@[k].kind),
        },
{
    match o {
        MergeOutcome::Merged(h) => MergeOutcomeDto::Merged { commit_hash: h },
        MergeOutcome::ConflictsPending(cs) => {
            let mut out: Vec<ConflictedFileDto> = Vec::new();
            let mut k: usize = 0;
            while k < cs.len()
                invariant
                    k <= cs.len(),
                    out@.len() == k,
                    forall|j: int|
                        0 <= j < k ==> (#[trigger] out@[j]).path == cs@[j].path
                            && out@[j].kind@ == conflict_kind_text(cs@[j].kind),
                decreases cs.len() - k,
            {
                let c = ConflictedFile { path: cs[k].path.clone(), kind: cs[k].kind };
                out.push(conflicted_file_dto(c));
                k = k + 1;
            }
            MergeOutcomeDto::ConflictsPending { conflicts: out }
        },
    }
}

// ---------------------------------------------------------------------------
// Region and chunk differences, statistics
// ---------------------------------------------------------------------------

/// A chunk that differs between two branches.
#[derive(Debug, Clone, PartialEq, Eq)]
pub struct ChunkDiffDto {
    pub chunk_x: i32,
    pub chunk_z: i32,
    pub status: String,
}

/// The text of a chunk status.
pub open spec fn chunk_status_text(s: ChunkStatus) -> Seq<char> {
    match s {
        ChunkStatus::Added => "added"@,
        ChunkStatus::Removed => "removed"@,
        ChunkStatus::Changed => "changed"@,
    }
}

/// The chunk with its status as text.
pub fn chunk_diff_dto(d: ChunkDiff) -> (r: ChunkDiffDto)
    ensures
        r.chunk_x == d.chunk_x && r.chunk_z == d.chunk_z,
        r.status@ == chunk_status_text(d.status),
{
    let status = match d.status {
        ChunkStatus::Added => string_lit("added"),
        ChunkStatus::Removed => string_lit("removed"),
        ChunkStatus::Changed => string_lit("changed"),
    };
    ChunkDiffDto { chunk_x: d.chunk_x, chunk_z: d.chunk_z, status }
}

/// A block that differs between two branches.
#[derive(Debug, Clone, PartialEq, Eq)]
pub struct BlockDiffDto {
    pub x: i32,
    pub y: i32,
    pub z: i32,
    pub from: String,
    pub to: String,
}

/// The block difference, field for field.
pub fn block_diff_dto(d: BlockDiff) -> (r: BlockDiffDto)
    ensures
        r.x == d.x && r.y == d.y && r.z == d.z && r.from == d.from && r.to == d.to,
{
    BlockDiffDto { x: d.x, y: d.y, z: d.z, from: d.from, to: d.to }
}

/// The text of a presence change.
pub open spec fn presence_text(p: Presence) -> Seq<char> {
    match p {
        Presence::Added => "added"@,
        Presence::Removed => "removed"@,
    }
}

/// The text of a presence change.
pub fn presence_str(p: Presence) -> (r: &'static str)
    ensures
        r@ == presence_text(p),
{
    match p {
        Presence::Added => "added",
        Presence::Removed => "removed",
    }
}

/// An entity that appeared in or left a chunk.
#[derive(Debug, Clone, PartialEq, Eq)]
pub struct EntityDiffDto {
    pub id: String,
    pub uuid: String,
    pub presence: String,
}

/// The entity difference with its presence as text.
pub fn entity_diff_dto(d: EntityDiff) -> (r: EntityDiffDto)
    ensures
        r.id == d.id && r.uuid == d.uuid,
        r.presence@ == presence_text(d.presence),
{
    let presence = string_lit(presence_str(d.presence));
    EntityDiffDto { id: d.id, uuid: d.uuid, presence }
}

/// A structure type that started or stopped starting in a chunk.
#[derive(Debug, Clone, PartialEq, Eq)]
pub struct StructureDiffDto {
    pub id: String,
    pub presence: String,
}

/// The structure difference with its presence as text.
pub fn structure_diff_dto(d: StructureDiff) -> (r: StructureDiffDto)
    ensures
        r.id == d.id,
        r.presence@ == presence_text(d.presence),
{
    let presence = string_lit(presence_str(d.presence));
    StructureDiffDto { id: d.id, presence }
}

/// How many blocks of one kind a snapshot holds.
#[derive(Debug, Clone, PartialEq, Eq)]
pub struct BlockCountDto {
    pub name: String,
    pub count: u64,
}

/// How many structures of one type a snapshot holds.
#[derive(Debug, Clone, PartialEq, Eq)]
pub struct StructureCountDto {
    pub name: String,
    pub count: u64,
}

/// How many entities of one kind a snapshot holds.
#[derive(Debug, Clone, PartialEq, Eq)]
pub struct EntityCountDto {
    pub name: String,
    pub count: u64,
}

/// A block tally as a record.
pub fn block_count_dto(t: (String, u64)) -> (r: BlockCountDto)
    ensures
        r.name == t.0 && r.count == t.1,
{
    BlockCountDto { name: t.0, count: t.1 }
}

/// A structure tally as a record.
pub fn structure_count_dto(t: (String, u64)) -> (r: StructureCountDto)
    ensures
        r.name == t.0 && r.count == t.1,
{
    StructureCountDto { name: t.0, count: t.1 }
}

/// An entity tally as a record.
pub fn entity_count_dto(t: (String, u64)) -> (r: EntityCountDto)
    ensures
        r.name == t.0 && r.count == t.1,
{
    EntityCountDto { name: t.0, count: t.1 }
}

// ---------------------------------------------------------------------------
// Instances and Minecraft versions
// ---------------------------------------------------------------------------

/// An instance as the interface lists it.
#[derive(Debug, Clone, PartialEq, Eq)]
pub struct InstanceDto {
    pub id: i64,
    pub name: String,
    pub mc_version: String,
    pub loader: String,
    pub loader_version: Option<String>,
    pub java_installation_id: Option<i64>,
    pub status: String,
    pub created_at: String,
}

/// The instance record with its loader and status as text.
pub fn instance_dto(row: InstanceRecord) -> (r: InstanceDto)
    ensures
        r.id == row.id && r.name == row.name && r.mc_version == row.mc_version,
        r.loader@ == "vanilla"@,
        r.loader_version == row.loader_version,
        r.java_installation_id == row.java_installation_id,
        r.status@ == status_name(row.status),
        r.created_at == row.created_at,
{
    let loader = string_lit(row.loader.as_str());
    let status = string_lit(row.status.as_str());
    InstanceDto {
        id: row.id,
        name: row.name,
        mc_version: row.mc_version,
        loader,
        loader_version: row.loader_version,
        java_installation_id: row.java_installation_id,
        status,
        created_at: row.created_at,
    }
}

/// The manifest first written for a freshly recorded instance: its
/// record's fields, the loader as text, and no Java path yet.
pub fn manifest_for(row: &InstanceRecord) -> (m: InstanceManifest)
    ensures
        m.id == row.id && m.name == row.name && m.mc_version == row.mc_version,
        m.loader@ == "vanilla"@,
        m.loader_version == row.loader_version,
        m.java_installation_path is None,
        m.created_at == row.created_at,
{
    InstanceManifest {
        id: row.id,
        name: row.name.clone(),
        mc_version: row.mc_version.clone(),
        loader: string_lit(row.loader.as_str()),
        loader_version: match &row.loader_version {
            Some(v) => Some(v.clone()),
            None => None,
        },
        java_installation_path: None,
        created_at: row.created_at.clone(),
    }
}

/// A Minecraft version that can be installed.
#[derive(Debug, Clone, PartialEq, Eq)]
pub struct McVersionDto {
    pub id: String,
    pub kind: String,
    pub release_time: String,
}

/// The version's id, kind and release time.
pub fn mc_version_dto(e: VersionEntry) -> (r: McVersionDto)
    ensures
        r.id == e.id && r.kind == e.kind && r.release_time == e.release_time,
{
    McVersionDto { id: e.id, kind: e.kind, release_time: e.release_time }
}

/// Whether a version is listed: releases always, others only when
/// snapshots are asked for.
pub open spec fn listed(e: VersionEntry, include_snapshots: bool) -> bool {
    include_snapshots || e.kind@ == "release"@
}

/// The versions to offer, in the manifest's order.
pub fn listed_versions(versions: Vec<VersionEntry>, include_snapshots: bool) -> (r: Vec<McVersionDto>)
    ensures
        r@ == versions@.filter(|e: VersionEntry| listed(e, include_snapshots)).map_values(
            |e: VersionEntry| McVersionDto { id: e.id, kind: e.kind, release_time: e.release_time },
        ),
{
    let ghost all = versions@;
    let n: usize = versions.len();
    let mut rest = versions;
    let mut r: Vec<McVersionDto> = Vec::new();
    let mut k: usize = 0;
    while rest.len() > 0
        invariant
            k + rest@.len() == all.len(),
            all.len() == n,
            rest@ == all.skip(k as int),
            r@ == all.take(k as int).filter(|e: VersionEntry| listed(e, include_snapshots)).map_values(
                |e: VersionEntry| McVersionDto { id: e.id, kind: e.kind, release_time: e.release_time },
            ),
        decreases rest@.len(),
    {
        let x = rest.remove(0);
        let ghost before = all.take(k as int).filter(|e: VersionEntry| listed(e, include_snapshots));
        proof {
            reveal(Seq::filter);
            assert(all.take(k + 1).drop_last() == all.take(k as int));
            assert(all.take(k + 1).last() == x);
            assert(rest@ == all.skip(k + 1));
        }
        let keep = include_snapshots || str_equals(x.kind.as_str(), "release");
        if keep {
            r.push(mc_version_dto(x));
            proof {
                assert(all.take(k + 1).filter(|e: VersionEntry| listed(e, include_snapshots)) == before.push(x));
                assert(before.push(x).map_values(
                    |e: VersionEntry| McVersionDto { id: e.id, kind: e.kind, release_time: e.release_time },
                ) =~= before.map_values(
                    |e: VersionEntry| McVersionDto { id: e.id, kind: e.kind, release_time: e.release_time },
                ).push(McVersionDto { id: x.id, kind: x.kind, release_time: x.release_time }));
            }
        } else {
            proof {
                assert(all.take(k + 1).filter(|e: VersionEntry| listed(e, include_snapshots)) == before);
            }
        }
        k = k + 1;
    }
    proof {
        assert(all.take(all.len() as int) == all);
    }
    r
}

/// The position of the first version whose id is `id`.
pub open spec fn version_position(v: Seq<VersionEntry>, id: Seq<char>) -> Option<int>
    decreases v.len(),
{
    if v.len() == 0 {
        None
    } else if v[0].id@ == id {
        Some(0)
    } else {
        match version_position(v.drop_first(), id) {
            Some(i) => Some(i + 1),
            None => None,
        }
    }
}

/// The refusal for a version that the manifest does not list.
pub open spec fn version_not_found(id: Seq<char>) -> Seq<char> {
    "Minecraft version "@ + id + " not found"@
}

/// The position of the first listed version whose id is `id`, or the
/// refusal naming it.
pub fn find_version(versions: &Vec<VersionEntry>, id: &str) -> (r: Result<usize, String>)
    ensures
        match r {
            Ok(i) => version_position(versions@, id@) == Some(i as int),
            Err(m) => version_position(versions@, id@) is None && m@ == version_not_found(id@),
        },
{
    let mut k: usize = 0;
    assert(versions@.skip(0) == versions@);
    while k < versions.len()
        invariant
            k <= versions.len(),
            version_position(versions@, id@) == match version_position(versions@.skip(k as int), id@) {
                Some(i) => Some(i + k),
                None => None,
            },
        decreases versions.len() - k,
    {
        assert(versions@.skip(k as int).drop_first() == versions@.skip(k + 1));
        if str_equals(versions[k].id.as_str(), id) {
            return Ok(k);
        }
        k = k + 1;
    }
    let mut m = chars_of("Minecraft version ");
    append_str(&mut m, id);
    append_str(&mut m, " not found");
    Err(string_of(m.as_slice()))
}

// ---------------------------------------------------------------------------
// Installation progress
// ---------------------------------------------------------------------------

/// Progress of creating an instance, as the interface receives it.
#[derive(Debug, Clone, PartialEq, Eq)]
pub struct InstanceInstallProgressPayload {
    pub instance_id: i64,
    pub phase: String,
    pub files_done: Option<u32>,
    pub files_total: Option<u32>,
    pub bytes_done: Option<u64>,
    pub bytes_total: Option<u64>,
}

/// A phase with no counts.
pub fn phase_payload(instance_id: i64, phase: &str) -> (r: InstanceInstallProgressPayload)
    ensures
        r.instance_id == instance_id && r.phase@ == phase@,
        r.files_done is None && r.files_total is None,
        r.bytes_done is None && r.bytes_total is None,
{
    InstanceInstallProgressPayload {
        instance_id,
        phase: string_lit(phase),
        files_done: None,
        files_total: None,
        bytes_done: None,
        bytes_total: None,
    }
}

/// Every stage of installing Java is reported as the phase
/// `resolving_java`, with byte counts only while downloading.
pub fn java_stage_payload(instance_id: i64, stage: JavaStage) -> (r: InstanceInstallProgressPayload)
    ensures
        r.instance_id == instance_id && r.phase@ == "resolving_java"@,
        r.files_done is None && r.files_total is None,
        match stage {
            JavaStage::Downloading { bytes_done, bytes_total } => r.bytes_done == Some(bytes_done)
                && r.bytes_total == Some(bytes_total),
            _ => r.bytes_done is None && r.bytes_total is None,
        },
{
    let (bytes_done, bytes_total) = match stage {
        JavaStage::Downloading { bytes_done, bytes_total } => (Some(bytes_done), Some(bytes_total)),
        _ => (None, None),
    };
    InstanceInstallProgressPayload {
        instance_id,
        phase: string_lit("resolving_java"),
        files_done: None,
        files_total: None,
        bytes_done,
        bytes_total,
    }
}

/// The phase name of a stage of installing Minecraft's files.
pub open spec fn game_phase(stage: GameStage) -> Seq<char> {
    match stage {
        GameStage::DownloadingClient { .. } => "downloading_client"@,
        GameStage::DownloadingLibraries { .. } => "downloading_libraries"@,
        GameStage::DownloadingAssets { .. } => "downloading_assets"@,
        GameStage::Verifying => "verifying"@,
        GameStage::Done => "done"@,
    }
}

/// A stage of installing Minecraft's files, with the counts it carries.
pub fn game_stage_payload(instance_id: i64, stage: GameStage) -> (r: InstanceInstallProgressPayload)
    ensures
        r.instance_id == instance_id && r.phase@ == game_phase(stage),
        match stage {
            GameStage::DownloadingClient { bytes_done, bytes_total } => r.files_done is None
                && r.files_total is None && r.bytes_done == Some(bytes_done) && r.bytes_total
                == Some(bytes_total),
            GameStage::DownloadingLibraries { files_done, files_total, bytes_done, bytes_total } =>
                r.files_done == Some(files_done) && r.files_total == Some(files_total)
                && r.bytes_done == Some(bytes_done) && r.bytes_total == Some(bytes_total),
            GameStage::DownloadingAssets { files_done, files_total, bytes_done, bytes_total } =>
                r.files_done == Some(files_done) && r.files_total == Some(files_total)
                && r.bytes_done == Some(bytes_done) && r.bytes_total == Some(bytes_total),
            _ => r.files_done is None && r.files_total is None && r.bytes_done is None
                && r.bytes_total is None,
        },
{
    match stage {
        GameStage::DownloadingClient { bytes_done, bytes_total } => InstanceInstallProgressPayload {
            instance_id,
            phase: string_lit("downloading_client"),
            files_done: None,
            files_total: None,
            bytes_done: Some(bytes_done),
            bytes_total: Some(bytes_total),
        },
        GameStage::DownloadingLibraries { files_done, files_total, bytes_done, bytes_total } => {
            InstanceInstallProgressPayload {
                instance_id,
                phase: string_lit("downloading_libraries"),
                files_done: Some(files_done),
                files_total: Some(files_total),
                bytes_done: Some(bytes_done),
                bytes_total: Some(bytes_total),
            }
        },
        GameStage::DownloadingAssets { files_done, files_total, bytes_done, bytes_total } => {
            InstanceInstallProgressPayload {
                instance_id,
                phase: string_lit("downloading_assets"),
                files_done: Some(files_done),
                files_total: Some(files_total),
                bytes_done: Some(bytes_done),
                bytes_total: Some(bytes_total),
            }
        },
        GameStage::Verifying => phase_payload(instance_id, "verifying"),
        GameStage::Done => phase_payload(instance_id, "done"),
    }
}

// ---------------------------------------------------------------------------
// Java installations and settings
// ---------------------------------------------------------------------------

/// A recorded Java installation as the interface lists it.
#[derive(Debug, Clone, PartialEq, Eq)]
pub struct JavaInstallationDto {
    pub id: i64,
    pub major_version: u32,
    pub vendor: String,
    pub path: String,
    pub source: String,
    pub is_default: bool,
}

/// The installation with its source as text.
pub fn java_installation_dto(row: JavaInstallation) -> (r: JavaInstallationDto)
    ensures
        r.id == row.id && r.major_version == row.major_version,
        r.vendor == row.vendor && r.path == row.path,
        r.source@ == source_name(row.source),
        r.is_default == row.is_default,
{
    let source = string_lit(row.source.as_str());
    JavaInstallationDto {
        id: row.id,
        major_version: row.major_version,
        vendor: row.vendor,
        path: row.path,
        source,
        is_default: row.is_default,
    }
}

/// Progress of installing a Java runtime, as the interface receives it.
#[derive(Debug, Clone, PartialEq, Eq)]
pub struct InstallProgressPayload {
    pub major_version: u32,
    pub stage: String,
    pub bytes_done: Option<u64>,
    pub bytes_total: Option<u64>,
}

/// The stage name of a stage of installing Java.
pub open spec fn java_stage_name(stage: JavaStage) -> Seq<char> {
    match stage {
        JavaStage::Downloading { .. } => "downloading"@,
        JavaStage::Verifying => "verifying"@,
        JavaStage::Extracting => "extracting"@,
        JavaStage::Done => "done"@,
    }
}

/// A stage of installing Java, with byte counts only while downloading.
pub fn install_progress_payload(major_version: u32, stage: JavaStage) -> (r: InstallProgressPayload)
    ensures
        r.major_version == major_version && r.stage@ == java_stage_name(stage),
        match stage {
            JavaStage::Downloading { bytes_done, bytes_total } => r.bytes_done == Some(bytes_done)
                && r.bytes_total == Some(bytes_total),
            _ => r.bytes_done is None && r.bytes_total is None,
        },
{
    let (name, bytes_done, bytes_total) = match stage {
        JavaStage::Downloading { bytes_done, bytes_total } => (
            "downloading",
            Some(bytes_done),
            Some(bytes_total),
        ),
        JavaStage::Verifying => ("verifying", None, None),
        JavaStage::Extracting => ("extracting", None, None),
        JavaStage::Done => ("done", None, None),
    };
    InstallProgressPayload { major_version, stage: string_lit(name), bytes_done, bytes_total }
}

/// The commit identity in effect.
#[derive(Debug, Clone, PartialEq, Eq)]
pub struct CommitIdentityDto {
    pub name: String,
    pub email: String,
}

} // verus!

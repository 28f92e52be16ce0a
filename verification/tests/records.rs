use mcgit::dto::{
    branch_dtos, chunk_diff_dto, conflicted_file_dto, entity_diff_dto, file_change_dto,
    find_version, game_stage_payload, install_progress_payload, instance_dto, java_stage_payload,
    listed_versions, manifest_for, merge_outcome_dto, presence_str, restore_dto,
    snapshot_result_dto, world_dtos, MergeOutcomeDto,
};
use mcgit::git::compare::{ChangeStatus, FileChange};
use mcgit::git::history::{CommitOutcome, RestoreOutcome};
use mcgit::git::merge::{ConflictKind, ConflictedFile, MergeOutcome};
use mcgit::instance::{
    instance_root, layout_dirs, manifest_path, minecraft_subdirs, sorted_worlds, world_dir,
    InstanceError, World,
};
use mcgit::java::InstallStage as JavaStage;
use mcgit::minecraft::{InstallStage as GameStage, VersionEntry};
use mcgit::store::{
    commit_identity, installations_of_major, set_or_clear, with_default, InstanceLoader, InstanceRecord,
    InstanceStatus, JavaInstallation, JavaSource, SettingChange, COMMIT_EMAIL_KEY,
    COMMIT_NAME_KEY,
};
use mcgit::world::types::{ChunkDiff, ChunkStatus, EntityDiff, Presence};

#[test]
fn instance_layout_paths() {
    assert_eq!(instance_root("/data/instances", 1), "/data/instances/1");
    assert_eq!(instance_root("/data/instances/", -3), "/data/instances/-3");
    assert_eq!(manifest_path("/data/instances/1"), "/data/instances/1/instance.json");
    assert_eq!(world_dir("/i", 2, "My World"), "/i/2/minecraft/saves/My World");
    let subs = minecraft_subdirs();
    assert_eq!(subs, vec!["mods", "resourcepacks", "shaderpacks", "saves", "screenshots", "logs", "config"]);
    let dirs = layout_dirs("/i", 1);
    assert_eq!(dirs.len(), 7);
    assert_eq!(dirs[0], "/i/1/minecraft/mods");
    assert_eq!(dirs[6], "/i/1/minecraft/config");
}

#[test]
fn lists_world_dirs_sorted() {
    let found = vec!["Zeta".to_string(), "Alpha".to_string()];
    let worlds = sorted_worlds(&found);
    let names: Vec<_> = worlds.iter().map(|w| w.folder_name.clone()).collect();
    assert_eq!(names, vec!["Alpha".to_string(), "Zeta".to_string()]);
    assert!(sorted_worlds(&vec![]).is_empty());
}

#[test]
fn instance_error_messages() {
    assert_eq!(InstanceError::Io("denied".to_string()).message(), "filesystem error: denied");
    assert_eq!(
        InstanceError::MalformedManifest("eof".to_string()).message(),
        "malformed instance.json: eof"
    );
}

#[test]
fn java_sources_round_trip_through_their_text() {
    for s in [JavaSource::Managed, JavaSource::Detected, JavaSource::Manual] {
        assert_eq!(JavaSource::parse(s.as_str()), Some(s));
    }
    assert_eq!(JavaSource::parse("other"), None);
    assert_eq!(InstanceLoader::Vanilla.as_str(), "vanilla");
    assert_eq!(InstanceStatus::Installing.as_str(), "installing");
    assert_eq!(InstanceStatus::Ready.as_str(), "ready");
    assert_eq!(InstanceStatus::Failed.as_str(), "failed");
}

#[test]
fn set_or_clear_with_blank_deletes_the_key_instead_of_storing_empty() {
    assert_eq!(
        set_or_clear("greeting", "   "),
        SettingChange::Delete { key: "greeting".to_string() }
    );
    assert_eq!(set_or_clear("greeting", ""), SettingChange::Delete { key: "greeting".to_string() });
}

#[test]
fn set_or_clear_trims_before_storing() {
    assert_eq!(
        set_or_clear("greeting", "  hello  "),
        SettingChange::Put { key: "greeting".to_string(), value: "hello".to_string() }
    );
}

#[test]
fn get_commit_identity_falls_back_to_mcgit_defaults_when_unset() {
    assert_eq!(commit_identity(None, None), ("mcgit".to_string(), "mcgit@localhost".to_string()));
    assert_eq!(
        commit_identity(Some("Alex".to_string()), None),
        ("Alex".to_string(), "mcgit@localhost".to_string())
    );
    assert_eq!(
        commit_identity(Some("Alex".to_string()), Some("alex@example.com".to_string())),
        ("Alex".to_string(), "alex@example.com".to_string())
    );
    assert_eq!(COMMIT_NAME_KEY, "commit_name");
    assert_eq!(COMMIT_EMAIL_KEY, "commit_email");
}

fn installation(id: i64, major: u32) -> JavaInstallation {
    JavaInstallation {
        id,
        major_version: major,
        vendor: "Eclipse Temurin".to_string(),
        path: format!("/opt/java/{id}/bin/java"),
        source: JavaSource::Managed,
        is_default: false,
        created_at: "2026-08-16T00:00:00Z".to_string(),
    }
}

#[test]
fn reusable_installations_match_the_major_version() {
    let rows = vec![installation(1, 17), installation(2, 21), installation(3, 21)];
    let ids: Vec<i64> = installations_of_major(rows, 21).iter().map(|j| j.id).collect();
    assert_eq!(ids, vec![2, 3]);
}

#[test]
fn worlds_carry_their_versioning_flag() {
    let worlds = vec![
        World { folder_name: "Alpha".to_string() },
        World { folder_name: "Beta".to_string() },
    ];
    let rows = vec![
        ("Beta".to_string(), true),
        ("Alpha".to_string(), true),
        ("Alpha".to_string(), false),
    ];
    let dtos = world_dtos(worlds, &rows);
    assert_eq!(dtos[0].folder_name, "Alpha");
    assert!(!dtos[0].git_enabled);
    assert!(dtos[1].git_enabled);
    let none = world_dtos(vec![World { folder_name: "Gamma".to_string() }], &rows);
    assert!(!none[0].git_enabled);
}

#[test]
fn outcomes_as_records() {
    let created = snapshot_result_dto(CommitOutcome::Created("abc".to_string()));
    assert!(created.created);
    assert_eq!(created.commit_hash, Some("abc".to_string()));
    let none = snapshot_result_dto(CommitOutcome::NothingToCommit);
    assert!(!none.created && none.commit_hash.is_none());
    let r = restore_dto(RestoreOutcome {
        backup: CommitOutcome::NothingToCommit,
        restore: CommitOutcome::Created("d".to_string()),
    });
    assert!(!r.backup_created && r.restored);
    let b = branch_dtos("main", vec!["dev".to_string(), "main".to_string()]);
    assert!(!b[0].is_current && b[1].is_current);
}

#[test]
fn status_texts() {
    let c = file_change_dto(FileChange {
        path: "level.dat".to_string(),
        status: ChangeStatus::Modified,
        old_size: Some(1),
        new_size: Some(2),
    });
    assert_eq!(c.status, "modified");
    let k = conflicted_file_dto(ConflictedFile {
        path: "x".to_string(),
        kind: ConflictKind::DeletedByThem,
    });
    assert_eq!(k.kind, "deleted_by_them");
    let m = merge_outcome_dto(MergeOutcome::ConflictsPending(vec![ConflictedFile {
        path: "y".to_string(),
        kind: ConflictKind::BothModified,
    }]));
    match m {
        MergeOutcomeDto::ConflictsPending { conflicts } => assert_eq!(conflicts[0].kind, "both_modified"),
        other => panic!("expected conflicts, got {other:?}"),
    }
    assert_eq!(
        chunk_diff_dto(ChunkDiff { chunk_x: 1, chunk_z: 2, status: ChunkStatus::Removed }).status,
        "removed"
    );
    assert_eq!(presence_str(Presence::Added), "added");
    let e = entity_diff_dto(EntityDiff {
        id: "minecraft:cow".to_string(),
        uuid: "u".to_string(),
        presence: Presence::Removed,
    });
    assert_eq!(e.presence, "removed");
}

fn version(id: &str, kind: &str) -> VersionEntry {
    VersionEntry {
        id: id.to_string(),
        kind: kind.to_string(),
        url: format!("https://piston-meta.example/{id}.json"),
        sha1: "00".to_string(),
        release_time: "2026-01-01T00:00:00+00:00".to_string(),
    }
}

#[test]
fn versions_offered_and_found() {
    let versions = vec![version("26.2", "release"), version("26w10a", "snapshot"), version("26.1", "release")];
    let releases: Vec<String> = listed_versions(versions.clone(), false).into_iter().map(|v| v.id).collect();
    assert_eq!(releases, vec!["26.2", "26.1"]);
    assert_eq!(listed_versions(versions.clone(), true).len(), 3);
    assert_eq!(find_version(&versions, "26.1"), Ok(2));
    assert_eq!(find_version(&versions, "1.0"), Err("Minecraft version 1.0 not found".to_string()));
}

#[test]
fn progress_payloads() {
    let p = game_stage_payload(
        7,
        GameStage::DownloadingAssets { files_done: 1, files_total: 9, bytes_done: 10, bytes_total: 90 },
    );
    assert_eq!(p.phase, "downloading_assets");
    assert_eq!((p.files_done, p.files_total, p.bytes_done, p.bytes_total), (Some(1), Some(9), Some(10), Some(90)));
    let d = game_stage_payload(7, GameStage::Done);
    assert_eq!(d.phase, "done");
    assert!(d.bytes_done.is_none());
    let j = java_stage_payload(7, JavaStage::Downloading { bytes_done: 5, bytes_total: 50 });
    assert_eq!(j.phase, "resolving_java");
    assert_eq!(j.bytes_total, Some(50));
    let v = java_stage_payload(7, JavaStage::Verifying);
    assert_eq!(v.phase, "resolving_java");
    assert!(v.bytes_done.is_none());
    let i = install_progress_payload(21, JavaStage::Extracting);
    assert_eq!(i.stage, "extracting");
    assert_eq!(i.major_version, 21);
}

#[test]
fn instance_records_as_shown() {
    let row = InstanceRecord {
        id: 4,
        name: "Survival".to_string(),
        mc_version: "26.2".to_string(),
        loader: InstanceLoader::Vanilla,
        loader_version: None,
        java_installation_id: Some(2),
        jvm_args: None,
        status: InstanceStatus::Ready,
        created_at: "2026-08-16T00:00:00Z".to_string(),
    };
    let m = manifest_for(&row);
    assert_eq!(m.loader, "vanilla");
    assert!(m.java_installation_path.is_none());
    let d = instance_dto(row);
    assert_eq!(d.status, "ready");
    assert_eq!(d.loader, "vanilla");
}

#[test]
fn making_a_default_clears_the_previous_one() {
    let mut first = installation(1, 17);
    first.is_default = true;
    let rows = vec![first, installation(2, 21), installation(3, 8)];
    let after = with_default(rows.clone(), 2).unwrap();
    let defaults: Vec<i64> = after.iter().filter(|j| j.is_default).map(|j| j.id).collect();
    assert_eq!(defaults, vec![2]);
    assert_eq!(after.len(), 3);
    assert_eq!(after[0].path, rows[0].path);
    // Making the current default the default again keeps it.
    let again = with_default(after.clone(), 2).unwrap();
    assert_eq!(again, after);
}

#[test]
fn making_an_unknown_installation_the_default_is_refused() {
    assert_eq!(with_default(vec![installation(1, 17)], 99), None);
}

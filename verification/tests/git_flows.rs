use mcgit::git::compare::{aggregate_region_stats, diff_branches, ChangeStatus};
use mcgit::git::history::{
    commit, create_branch, current_branch, exclude_session_lock, init, list_branches, log,
    restore, switch_branch, CommitOutcome, RestoreError,
};
use mcgit::git::merge::{
    list_merge_conflicts, merge_branch, preview_merge, resolve_conflict, ConflictKind, MergeError,
    MergeOutcome, Side,
};
use mcgit::git::protocol::{GitError, GitOutput, Reply, Request, Step};
use fastnbt::Value;
use std::collections::HashMap;

fn ok(stdout: &str) -> Reply {
    Reply::Ran(Ok(GitOutput { success: true, stdout: stdout.as_bytes().to_vec(), stderr: vec![] }))
}

fn failed(stderr: &str) -> Reply {
    Reply::Ran(Ok(GitOutput { success: false, stdout: vec![], stderr: stderr.as_bytes().to_vec() }))
}

fn args(q: &Request) -> Vec<String> {
    match q {
        Request::Git(a) => a.clone(),
        other => panic!("expected a git request, got {other:?}"),
    }
}

/// Runs an operation to its end, answering each request with `answer`,
/// and returns the requests it made with its outcome.
fn drive<T, E>(
    op: impl Fn(&[Reply]) -> Step<T, E>,
    mut answer: impl FnMut(&Request) -> Reply,
) -> (Vec<Request>, Result<T, E>) {
    let mut replies: Vec<Reply> = Vec::new();
    let mut asked: Vec<Request> = Vec::new();
    loop {
        match op(&replies) {
            Step::Ask(q) => {
                let r = answer(&q);
                asked.push(q);
                replies.push(r);
                assert!(replies.len() < 100, "operation does not end");
            }
            Step::Done(res) => return (asked, res),
        }
    }
}

/// Answers git requests by their first argument.
fn git_answers(q: &Request, status: &str, head: &str) -> Reply {
    match q {
        Request::IsOpen => Reply::Open(Ok(false)),
        Request::Git(a) => match a[0].as_str() {
            "status" => ok(status),
            "rev-parse" => ok(head),
            _ => ok(""),
        },
        other => panic!("unexpected request {other:?}"),
    }
}

#[test]
fn commit_with_changes_returns_created_hash() {
    let (asked, res) = drive(
        |r| commit("first", "Alex", "alex@example.com", r),
        |q| git_answers(q, "?? level.dat\n", "0123456789abcdef\n"),
    );
    assert_eq!(res, Ok(CommitOutcome::Created("0123456789abcdef".to_string())));
    let all: Vec<Vec<String>> = asked.iter().map(args).collect();
    assert_eq!(all[0], vec!["config", "--local", "user.name", "Alex"]);
    assert_eq!(all[1], vec!["config", "--local", "user.email", "alex@example.com"]);
    assert_eq!(all[2], vec!["add", "-A"]);
    assert_eq!(all[3], vec!["status", "--porcelain"]);
    assert_eq!(all[4], vec!["commit", "-m", "first"]);
    assert_eq!(all[5], vec!["rev-parse", "HEAD"]);
}

#[test]
fn commit_again_with_no_changes_returns_nothing_to_commit() {
    let (asked, res) = drive(|r| commit("again", "mcgit", "mcgit@localhost", r), |q| git_answers(q, "", "x"));
    assert_eq!(res, Ok(CommitOutcome::NothingToCommit));
    assert_eq!(asked.len(), 4);
}

#[test]
fn commit_stops_at_the_first_failing_command() {
    let (asked, res) = drive(
        |r| commit("m", "n", "e", r),
        |q| match args(q)[0].as_str() {
            "add" => failed("fatal: not a git repository"),
            _ => ok(""),
        },
    );
    assert_eq!(res, Err(GitError::CommandFailed("fatal: not a git repository".to_string())));
    assert_eq!(asked.len(), 3);
}

#[test]
fn a_git_that_cannot_start_is_a_spawn_error() {
    let (_, res) = drive(|r| create_branch("b", r), |_| Reply::Ran(Err("No such file".to_string())));
    assert_eq!(res, Err(GitError::Spawn("No such file".to_string())));
}

#[test]
fn init_excludes_the_session_lock_once() {
    let mut written: Vec<String> = Vec::new();
    let (_, res) = drive(init, |q| match q {
        Request::Git(_) => ok(""),
        Request::ReadExclude => Reply::Text("# local ignores".to_string()),
        Request::WriteExclude(t) => {
            written.push(t.clone());
            Reply::Written(Ok(()))
        }
        other => panic!("unexpected {other:?}"),
    });
    assert_eq!(res, Ok(()));
    assert_eq!(written, vec!["# local ignores\nsession.lock\n".to_string()]);

    let (asked, res) = drive(init, |q| match q {
        Request::Git(_) => ok(""),
        Request::ReadExclude => Reply::Text("session.lock\n".to_string()),
        other => panic!("unexpected {other:?}"),
    });
    assert_eq!(res, Ok(()));
    assert_eq!(asked.len(), 2);
}

#[test]
fn exclude_text_updates() {
    assert_eq!(exclude_session_lock(""), Some("session.lock\n".to_string()));
    assert_eq!(exclude_session_lock("a"), Some("a\nsession.lock\n".to_string()));
    assert_eq!(exclude_session_lock("a\n"), Some("a\nsession.lock\n".to_string()));
    assert_eq!(exclude_session_lock("x\nsession.lock\ny"), None);
    let once = exclude_session_lock("foo").unwrap();
    assert_eq!(exclude_session_lock(&once), None);
}

#[test]
fn log_on_never_initialized_world_returns_empty() {
    let (_, res) = drive(log, |q| match q {
        Request::IsRepository => Reply::Flag(false),
        other => panic!("unexpected {other:?}"),
    });
    assert!(res.unwrap().is_empty());
}

#[test]
fn log_on_repo_with_no_commits_returns_empty() {
    let (_, res) = drive(log, |q| match q {
        Request::IsRepository => Reply::Flag(true),
        _ => failed("fatal: your current branch 'master' does not have any commits yet"),
    });
    assert!(res.unwrap().is_empty());
}

#[test]
fn log_returns_snapshots_most_recent_first() {
    let out = "bbb\u{1f}2026-01-02T00:00:00+00:00\u{1f}second\naaa\u{1f}2026-01-01T00:00:00+00:00\u{1f}first: with\u{1f}separator\n";
    let (asked, res) = drive(log, |q| match q {
        Request::IsRepository => Reply::Flag(true),
        _ => ok(out),
    });
    assert_eq!(args(&asked[1]), vec!["log", "--pretty=format:%H\u{1f}%aI\u{1f}%s"]);
    let snaps = res.unwrap();
    assert_eq!(snaps.len(), 2);
    assert_eq!(snaps[0].hash, "bbb");
    assert_eq!(snaps[0].message, "second");
    assert_eq!(snaps[1].date, "2026-01-01T00:00:00+00:00");
    assert_eq!(snaps[1].message, "first: with\u{1f}separator");
}

#[test]
fn restore_refuses_when_world_is_locked() {
    let (asked, res) = drive(
        |r| restore("abc", "n", "e", r),
        |q| match q {
            Request::IsOpen => Reply::Open(Ok(true)),
            other => panic!("nothing but the open check may run, got {other:?}"),
        },
    );
    assert_eq!(asked.len(), 1);
    assert_eq!(res, Err(RestoreError::WorldCurrentlyOpen));
}

#[test]
fn restore_backs_up_then_checks_out_then_records() {
    let (asked, res) = drive(|r| restore("0123456789abcdef", "n", "e", r), |q| git_answers(q, " M level.dat\n", "ffff\n"));
    let gits: Vec<Vec<String>> = asked.iter().skip(1).map(args).collect();
    let commits: Vec<&Vec<String>> = gits.iter().filter(|a| a[0] == "commit").collect();
    assert_eq!(commits[0][2], "Backup before restoring");
    assert_eq!(commits[1][2], "Restored to 0123456");
    let checkout = gits.iter().position(|a| a[0] == "restore").unwrap();
    let first_commit = gits.iter().position(|a| a[0] == "commit").unwrap();
    assert!(first_commit < checkout);
    assert_eq!(gits[checkout], vec!["restore", "--source", "0123456789abcdef", "--staged", "--worktree", "--", "."]);
    let out = res.unwrap();
    assert_eq!(out.backup, CommitOutcome::Created("ffff".to_string()));
    assert_eq!(out.restore, CommitOutcome::Created("ffff".to_string()));
}

#[test]
fn switch_branch_no_checkpoint_when_clean() {
    let (asked, res) = drive(|r| switch_branch("dev", "n", "e", r), |q| git_answers(q, "", "x"));
    let out = res.unwrap();
    assert_eq!(out.checkpoint, CommitOutcome::NothingToCommit);
    assert_eq!(out.branch, "dev");
    assert_eq!(args(asked.last().unwrap()), vec!["checkout", "dev"]);
}

#[test]
fn branches_are_read_from_git() {
    let (_, cur) = drive(current_branch, |_| ok("main\n"));
    assert_eq!(cur, Ok("main".to_string()));
    let (asked, names) = drive(list_branches, |_| ok("dev\nmain\n"));
    assert_eq!(names, Ok(vec!["dev".to_string(), "main".to_string()]));
    assert_eq!(asked.len(), 1);
}

#[test]
fn merge_branch_refuses_when_already_in_progress() {
    let (asked, res) = drive(
        |r| merge_branch("dev", "n", "e", r),
        |q| match q {
            Request::IsOpen => Reply::Open(Ok(false)),
            Request::MergeInProgress => Reply::Flag(true),
            other => panic!("unexpected {other:?}"),
        },
    );
    assert_eq!(asked.len(), 2);
    assert_eq!(res, Err(MergeError::AlreadyInProgress));
}

#[test]
fn merge_branch_returns_conflicts_pending_on_content_conflict() {
    // A conflicting merge leaves the merge in progress behind it.
    let mut merging = false;
    let (_, res) = drive(
        |r| merge_branch("dev", "n", "e", r),
        |q| match q {
            Request::IsOpen => Reply::Open(Ok(false)),
            Request::MergeInProgress => Reply::Flag(merging),
            Request::Git(a) if a[0] == "merge" => {
                merging = true;
                Reply::Ran(Ok(GitOutput { success: false, stdout: b"CONFLICT".to_vec(), stderr: vec![] }))
            }
            Request::Git(a) if a[0] == "status" => ok("UU level.dat\nDU region/r.0.0.mca\n M other\n"),
            _ => ok(""),
        },
    );
    match res.unwrap() {
        MergeOutcome::ConflictsPending(cs) => {
            assert_eq!(cs.len(), 2);
            assert_eq!(cs[0].path, "level.dat");
            assert_eq!(cs[0].kind, ConflictKind::BothModified);
            assert_eq!(cs[1].path, "region/r.0.0.mca");
            assert_eq!(cs[1].kind, ConflictKind::DeletedByUs);
        }
        other => panic!("expected conflicts, got {other:?}"),
    }
}

#[test]
fn merge_branch_succeeds_cleanly_when_no_conflict() {
    let (asked, res) = drive(
        |r| merge_branch("dev", "n", "e", r),
        |q| match q {
            Request::IsOpen => Reply::Open(Ok(false)),
            Request::MergeInProgress => Reply::Flag(false),
            Request::Git(a) if a[0] == "rev-parse" => ok("beef\n"),
            _ => ok(""),
        },
    );
    assert_eq!(res, Ok(MergeOutcome::Merged("beef".to_string())));
    let merge = asked.iter().filter_map(|q| match q {
        Request::Git(a) if a[0] == "merge" => Some(a.clone()),
        _ => None,
    });
    assert_eq!(merge.collect::<Vec<_>>(), vec![vec!["merge", "dev", "-m", "Merge branch 'dev'"]]);
}

#[test]
fn resolve_conflict_keeps_the_chosen_side() {
    let (asked, res) = drive(
        |r| resolve_conflict("level.dat", Side::Theirs, r),
        |q| match q {
            Request::IsOpen => Reply::Open(Ok(false)),
            _ => ok(""),
        },
    );
    assert!(res.is_ok());
    assert_eq!(args(&asked[1]), vec!["checkout", "--theirs", "--", "level.dat"]);
}

#[test]
fn listing_conflicts_reads_porcelain_status() {
    let (_, res) = drive(list_merge_conflicts, |_| ok("UD a\nAA b\n M c\n"));
    let cs = res.unwrap();
    assert_eq!(cs.len(), 2);
    assert_eq!(cs[0].kind, ConflictKind::DeletedByThem);
    assert_eq!(cs[1].kind, ConflictKind::BothModified);
}

#[test]
fn preview_merge_reports_conflicting_file() {
    let out = "4b825dc6\n100644 aaaa 1\tlevel.dat\n100644 bbbb 2\tlevel.dat\n100644 cccc 3\tlevel.dat\n\nAuto-merging level.dat\n";
    let (_, res) = drive(|r| preview_merge("main", "dev", r), |_| failed_with_stdout(out));
    assert_eq!(res, Ok(vec!["level.dat".to_string()]));
    let (_, clean) = drive(|r| preview_merge("main", "dev", r), |_| ok("4b825dc6\n"));
    assert_eq!(clean, Ok(vec![]));
}

fn failed_with_stdout(out: &str) -> Reply {
    Reply::Ran(Ok(GitOutput { success: false, stdout: out.as_bytes().to_vec(), stderr: vec![] }))
}

#[test]
fn diff_branches_reports_sizes_per_side() {
    let (asked, res) = drive(
        |r| diff_branches("main", "dev", r),
        |q| {
            let a = args(q);
            match a[0].as_str() {
                "diff" => ok("A\tnew.txt\nM\tlevel.dat\nD\told.txt\n"),
                "cat-file" => match a[2].as_str() {
                    "dev:new.txt" => ok("5\n"),
                    "main:level.dat" => ok("100\n"),
                    "dev:level.dat" => ok("120\n"),
                    "main:old.txt" => ok("7\n"),
                    other => panic!("unexpected {other}"),
                },
                _ => panic!("unexpected {a:?}"),
            }
        },
    );
    assert_eq!(args(&asked[0]), vec!["diff", "--name-status", "--no-renames", "main", "dev"]);
    let cs = res.unwrap();
    assert_eq!(cs.len(), 3);
    assert_eq!((cs[0].status, cs[0].old_size, cs[0].new_size), (ChangeStatus::Added, None, Some(5)));
    assert_eq!((cs[1].status, cs[1].old_size, cs[1].new_size), (ChangeStatus::Modified, Some(100), Some(120)));
    assert_eq!((cs[2].status, cs[2].old_size, cs[2].new_size), (ChangeStatus::Deleted, Some(7), None));
}

#[test]
fn diff_branches_between_identical_branches_returns_empty() {
    let (_, res) = drive(|r| diff_branches("main", "main", r), |_| ok(""));
    assert!(res.unwrap().is_empty());
}

#[test]
fn aggregate_sums_and_sorts_most_common_first() {
    let tables = vec![
        vec![("minecraft:stone".to_string(), 10u64), ("minecraft:dirt".to_string(), 3)],
        vec![("minecraft:dirt".to_string(), 9), ("minecraft:air".to_string(), 12)],
        vec![("minecraft:andesite".to_string(), 12)],
    ];
    assert_eq!(
        aggregate_region_stats(&tables),
        vec![
            ("minecraft:air".to_string(), 12),
            ("minecraft:andesite".to_string(), 12),
            ("minecraft:dirt".to_string(), 12),
            ("minecraft:stone".to_string(), 10),
        ]
    );
}

#[test]
fn every_rewriting_operation_refuses_an_open_world() {
    let open = |q: &Request| match q {
        Request::IsOpen => Reply::Open(Ok(true)),
        other => panic!("nothing but the open check may run, got {other:?}"),
    };
    let (asked, res) = drive(|r| mcgit::git::history::delete_snapshot("abc", r), open);
    assert_eq!(asked.len(), 1);
    assert_eq!(res, Err(mcgit::git::history::DeleteError::WorldCurrentlyOpen));
    let (asked, res) = drive(|r| switch_branch("dev", "n", "e", r), open);
    assert_eq!(asked.len(), 1);
    assert_eq!(res, Err(mcgit::git::history::BranchError::WorldCurrentlyOpen));
    let (asked, res) = drive(|r| merge_branch("dev", "n", "e", r), open);
    assert_eq!(asked.len(), 1);
    assert_eq!(res, Err(MergeError::WorldCurrentlyOpen));
    let (asked, res) = drive(|r| resolve_conflict("level.dat", Side::Ours, r), open);
    assert_eq!(asked.len(), 1);
    assert_eq!(res, Err(MergeError::WorldCurrentlyOpen));
}

#[test]
fn a_failing_lock_check_is_an_io_error() {
    let (_, res) = drive(|r| restore("abc", "n", "e", r), |_| Reply::Open(Err("permission denied".to_string())));
    assert_eq!(res, Err(RestoreError::Io("permission denied".to_string())));
}

fn one_section_chunk(block: &str) -> Vec<u8> {
    let mut entry = HashMap::new();
    entry.insert("Name".to_string(), Value::String(block.to_string()));
    let mut states = HashMap::new();
    states.insert("palette".to_string(), Value::List(vec![Value::Compound(entry)]));
    let mut section = HashMap::new();
    section.insert("Y".to_string(), Value::Byte(0));
    section.insert("block_states".to_string(), Value::Compound(states));
    let mut root = HashMap::new();
    root.insert("sections".to_string(), Value::List(vec![Value::Compound(section)]));
    fastnbt::to_bytes(&Value::Compound(root)).unwrap()
}

fn one_chunk_region(block: &str) -> Vec<u8> {
    let mut region = fastanvil::Region::create(std::io::Cursor::new(Vec::new())).unwrap();
    region.write_chunk(0, 0, &one_section_chunk(block)).unwrap();
    region.into_inner().unwrap().into_inner()
}

#[test]
fn world_block_stats_sums_two_region_files_most_common_first() {
    let stone = one_chunk_region("minecraft:stone");
    let dirt = one_chunk_region("minecraft:dirt");
    let (asked, res) = drive(
        |r| mcgit::git::compare::world_block_stats("main", r),
        |q| {
            let a = args(q);
            match a[0].as_str() {
                "ls-tree" => ok("region/r.0.0.mca\nregion/r.1.0.mca\n"),
                "cat-file" if a[2] == "main:region/r.0.0.mca" => Reply::Ran(Ok(GitOutput {
                    success: true,
                    stdout: stone.clone(),
                    stderr: vec![],
                })),
                "cat-file" => Reply::Ran(Ok(GitOutput { success: true, stdout: dirt.clone(), stderr: vec![] })),
                other => panic!("unexpected {other}"),
            }
        },
    );
    assert_eq!(asked.len(), 3);
    assert_eq!(
        res,
        Ok(vec![("minecraft:dirt".to_string(), 4096), ("minecraft:stone".to_string(), 4096)])
    );
}

#[test]
fn restore_names_the_snapshot_by_the_first_seven_bytes() {
    let (asked, _) = drive(|r| restore("ab\u{e9}cdefgh", "n", "e", r), |q| git_answers(q, " M level.dat\n", "ffff\n"));
    let gits: Vec<Vec<String>> = asked.iter().skip(1).map(args).collect();
    let commits: Vec<&Vec<String>> = gits.iter().filter(|a| a[0] == "commit").collect();
    assert_eq!(commits[1][2], "Restored to ab\u{e9}cde");
    let (asked, _) = drive(|r| restore("abc", "n", "e", r), |q| git_answers(q, " M level.dat\n", "ffff\n"));
    let gits: Vec<Vec<String>> = asked.iter().skip(1).map(args).collect();
    let commits: Vec<&Vec<String>> = gits.iter().filter(|a| a[0] == "commit").collect();
    assert_eq!(commits[1][2], "Restored to abc");
}

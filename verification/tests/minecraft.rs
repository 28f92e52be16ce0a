use std::path::Path;

use mcgit::minecraft::{
    asset_cache_path, asset_download_url, client_jar_path, download_totals, hex_digest,
    is_cached, is_library_allowed, library_artifacts, piston_os_name, DownloadTally, Library,
    LibraryArtifact, LibraryDownloads, OsRule, ProgressThrottle, Rule,
};

fn allow_rule(os_name: &str) -> Rule {
    Rule {
        action: "allow".to_string(),
        os: Some(OsRule { name: Some(os_name.to_string()) }),
    }
}

#[test]
fn asset_download_url_uses_content_addressed_layout() {
    let hash = "b62ca8ec10d07e6bf5ac8dae0c8c1d2e6a1e3356";
    assert_eq!(
        asset_download_url(hash),
        "https://resources.download.minecraft.net/b6/b62ca8ec10d07e6bf5ac8dae0c8c1d2e6a1e3356"
    );
}

#[test]
fn asset_cache_path_mirrors_the_same_layout_locally() {
    let cache_dir = "/tmp/mcgit-cache";
    let hash = "b62ca8ec10d07e6bf5ac8dae0c8c1d2e6a1e3356";
    let result = asset_cache_path(cache_dir, hash);
    assert_eq!(
        Path::new(&result),
        Path::new("/tmp/mcgit-cache/assets/objects/b6/b62ca8ec10d07e6bf5ac8dae0c8c1d2e6a1e3356")
    );
}

#[test]
fn progress_throttle_suppresses_frequent_small_updates() {
    let mut throttle = ProgressThrottle::new();
    assert!(!throttle.should_emit(100));
    assert!(!throttle.should_emit(200));
    // Crossed the 1MB-since-last-emit threshold.
    assert!(throttle.should_emit(1_100_000));
}

#[test]
fn no_rules_means_always_allowed() {
    assert!(is_library_allowed(&[], "linux"));
    assert!(is_library_allowed(&[], "osx"));
    assert!(is_library_allowed(&[], "windows"));
}

#[test]
fn os_specific_rule_only_allows_matching_os() {
    let macos_only = [allow_rule("osx")];
    assert!(is_library_allowed(&macos_only, "osx"));
    assert!(!is_library_allowed(&macos_only, "linux"));
    assert!(!is_library_allowed(&macos_only, "windows"));

    let linux_only = [allow_rule("linux")];
    assert!(is_library_allowed(&linux_only, "linux"));
    assert!(!is_library_allowed(&linux_only, "osx"));

    let windows_only = [allow_rule("windows")];
    assert!(is_library_allowed(&windows_only, "windows"));
    assert!(!is_library_allowed(&windows_only, "linux"));
}

#[test]
fn last_matching_rule_wins() {
    let allow_then_deny_for_linux = [
        Rule { action: "allow".to_string(), os: None },
        Rule {
            action: "disallow".to_string(),
            os: Some(OsRule { name: Some("linux".to_string()) }),
        },
    ];
    assert!(!is_library_allowed(&allow_then_deny_for_linux, "linux"));
    assert!(is_library_allowed(&allow_then_deny_for_linux, "osx"));
}

#[test]
fn piston_os_name_translates_macos_to_osx() {
    let name = piston_os_name("linux");
    assert!(name == "osx" || name == "linux" || name == "windows");
    assert_eq!(piston_os_name("macos"), "osx");
    assert_eq!(piston_os_name("linux"), "linux");
}

#[test]
fn rule_naming_no_os_applies_to_none() {
    let odd = [Rule { action: "allow".to_string(), os: Some(OsRule { name: None }) }];
    assert!(!is_library_allowed(&odd, "linux"));
}

#[test]
fn is_cached_true_only_when_hash_matches() {
    let contents: &[u8] = b"hello mcgit";
    let real_hash = String::from_utf8(hex_digest(contents)).unwrap();
    assert_eq!(real_hash.len(), 40);
    assert!(is_cached(Some(contents), &real_hash));
    assert!(is_cached(Some(contents), &real_hash.to_uppercase()));
    assert!(!is_cached(Some(contents), "0000000000000000000000000000000000"));
}

#[test]
fn is_cached_false_when_file_missing() {
    assert!(!is_cached(None, "anything"));
}

#[test]
fn sha1_of_known_input() {
    assert_eq!(
        String::from_utf8(hex_digest(b"abc")).unwrap(),
        "a9993e364706816aba3e25717850c26c9cd0d89d"
    );
}

#[test]
fn client_jar_lives_under_versions() {
    assert_eq!(client_jar_path("/c", "26.2"), "/c/versions/26.2/client.jar");
}

fn artifact(path: &str, size: u64) -> LibraryArtifact {
    LibraryArtifact {
        path: path.to_string(),
        sha1: "00".to_string(),
        size,
        url: format!("https://libraries.example/{path}"),
    }
}

#[test]
fn library_artifacts_keep_allowed_libraries_with_a_download() {
    let libs = vec![
        Library {
            name: "a".to_string(),
            downloads: LibraryDownloads { artifact: Some(artifact("a.jar", 10)) },
            rules: vec![],
        },
        Library {
            name: "mac".to_string(),
            downloads: LibraryDownloads { artifact: Some(artifact("mac.jar", 20)) },
            rules: vec![allow_rule("osx")],
        },
        Library {
            name: "none".to_string(),
            downloads: LibraryDownloads { artifact: None },
            rules: vec![],
        },
        Library {
            name: "b".to_string(),
            downloads: LibraryDownloads { artifact: Some(artifact("b.jar", 5)) },
            rules: vec![allow_rule("linux")],
        },
    ];
    let got = library_artifacts(&libs, "linux");
    let paths: Vec<&str> = got.iter().map(|a| a.path.as_str()).collect();
    assert_eq!(paths, vec!["a.jar", "b.jar"]);
    let sizes: Vec<u64> = got.iter().map(|a| a.size).collect();
    assert_eq!(download_totals(&sizes), (2, 15));
}

#[test]
fn tally_reports_after_the_last_file() {
    let mut t = DownloadTally { files_done: 0, files_total: 2, bytes_done: 0, bytes_total: 30 };
    assert!(!t.record(10, false));
    assert_eq!((t.files_done, t.bytes_done), (1, 10));
    assert!(t.record(20, false));
    assert_eq!((t.files_done, t.bytes_done), (2, 30));
}

#[test]
fn throttle_reports_after_the_interval_and_records_the_instant() {
    let before = std::time::Instant::now();
    let mut throttle = ProgressThrottle::new();
    // An instant no later than the last report: too soon, small progress.
    assert!(!throttle.should_emit_at(before, 10));
    // 150 ms after the last report: due.
    let later = std::time::Instant::now() + std::time::Duration::from_millis(150);
    assert!(throttle.should_emit_at(later, 20));
    // The report recorded `later`: 50 ms after it is too soon again.
    assert!(!throttle.should_emit_at(later + std::time::Duration::from_millis(50), 30));
    assert!(throttle.should_emit_at(later + std::time::Duration::from_millis(100), 40));
    // A million more bytes is due at once.
    assert!(throttle.should_emit_at(later + std::time::Duration::from_millis(100), 1_000_040));
}

//! Installing a Minecraft version: which libraries apply to an operating
//! system, where assets are downloaded from and cached, checking cached
//! files against their SHA-1, and how often download progress is
//! reported.
use vstd::prelude::*;

use crate::java::{bytes_eq_ignore_ascii_case, eq_ignore_ascii_case, hex_encode, hex_text};
use crate::text::{append_str, chars_of, join_path, path_join, str_equals, string_lit, string_of, sub_chars};
use sha1::Digest;
use std::time::{Duration, Instant};
use vstd::string::StringSliceAdditionalSpecFns;

verus! {

// ---------------------------------------------------------------------------
// Version metadata (as piston-meta describes it)
// ---------------------------------------------------------------------------

/// The list of every published version.
#[derive(Debug, Clone)]
pub struct VersionManifestList {
    pub latest: LatestVersions,
    pub versions: Vec<VersionEntry>,
}

/// The newest release and snapshot ids.
#[derive(Debug, Clone)]
pub struct LatestVersions {
    pub release: String,
    pub snapshot: String,
}

/// One published version.
#[derive(Debug, Clone)]
pub struct VersionEntry {
    pub id: String,
    pub kind: String,
    pub url: String,
    pub sha1: String,
    pub release_time: String,
}

/// What installing one version needs.
#[derive(Debug, Clone)]
pub struct VersionDetail {
    pub id: String,
    pub downloads: Downloads,
    pub asset_index: AssetIndexRef,
    pub java_version: JavaVersionRef,
    pub libraries: Vec<Library>,
}

/// The client jar's download.
#[derive(Debug, Clone)]
pub struct Downloads {
    pub client: DownloadArtifact,
}

/// A file to download, with its SHA-1 and size.
#[derive(Debug, Clone)]
pub struct DownloadArtifact {
    pub url: String,
    pub sha1: String,
    pub size: u64,
}

/// Where a version's asset index is.
#[derive(Debug, Clone)]
pub struct AssetIndexRef {
    pub id: String,
    pub sha1: String,
    pub size: u64,
    pub total_size: u64,
    pub url: String,
}

/// The Java runtime a version needs.
#[derive(Debug, Clone)]
pub struct JavaVersionRef {
    pub component: String,
    pub major_version: u32,
}

/// A library of a version, with the rules deciding where it applies.
#[derive(Debug, Clone)]
pub struct Library {
    pub name: String,
    pub downloads: LibraryDownloads,
    pub rules: Vec<Rule>,
}

/// A library's download, when it has one.
#[derive(Debug, Clone)]
pub struct LibraryDownloads {
    pub artifact: Option<LibraryArtifact>,
}

/// A library file.
#[derive(Debug, Clone)]
pub struct LibraryArtifact {
    pub path: String,
    pub sha1: String,
    pub size: u64,
    pub url: String,
}

/// One rule: `allow` or `disallow`, for one operating system or all.
#[derive(Debug, Clone)]
pub struct Rule {
    pub action: String,
    pub os: Option<OsRule>,
}

/// The operating system a rule is about.
#[derive(Debug, Clone)]
pub struct OsRule {
    pub name: Option<String>,
}

/// A version's assets: each object's name and content hash.
#[derive(Debug, Clone)]
pub struct AssetIndex {
    pub objects: Vec<(String, AssetObject)>,
}

/// One asset: its SHA-1 (which also names it) and size.
#[derive(Debug, Clone)]
pub struct AssetObject {
    pub hash: String,
    pub size: u64,
}

/// Why installing a version failed.
#[derive(Debug, Clone, PartialEq, Eq)]
pub enum MinecraftError {
    Network(String),
    Io(String),
    UnrecognizedApiResponse(String),
    ChecksumMismatch { path: String, expected: String, actual: String },
}

/// Progress of installing a version.
#[derive(Debug, Clone, PartialEq, Eq)]
pub enum InstallStage {
    DownloadingClient { bytes_done: u64, bytes_total: u64 },
    DownloadingLibraries { files_done: u32, files_total: u32, bytes_done: u64, bytes_total: u64 },
    DownloadingAssets { files_done: u32, files_total: u32, bytes_done: u64, bytes_total: u64 },
    Verifying,
    Done,
}

// ---------------------------------------------------------------------------
// Library rules
// ---------------------------------------------------------------------------

/// Whether `rule` applies to `os`: it names no operating system, or names
/// exactly `os`.
pub open spec fn rule_matches(rule: Rule, os: Seq<char>) -> bool {
    match rule.os {
        None => true,
        Some(o) => match o.name {
            Some(n) => n@ == os,
            None => false,
        },
    }
}

/// piston-meta's name for an operating system: `macos` is `osx`, any
/// other name is the same.
pub open spec fn piston_os_of(os: Seq<char>) -> Seq<char> {
    if os == "macos"@ {
        "osx"@
    } else {
        os
    }
}

/// piston-meta's name for an operating system (as Rust names it).
pub fn piston_os_name(os: &str) -> (r: String)
    ensures
        r@ == piston_os_of(os@),
{
    if str_equals(os, "macos") {
        string_lit("osx")
    } else {
        string_lit(os)
    }
}

/// The decision of the first `k` rules: the action of the last one that
/// applies is `allow`; false when none applies.
pub open spec fn rules_allow(rules: Seq<Rule>, os: Seq<char>, k: int) -> bool
    decreases k,
{
    if k <= 0 {
        false
    } else if rule_matches(rules[k - 1], os) {
        rules[k - 1].action@ == "allow"@
    } else {
        rules_allow(rules, os, k - 1)
    }
}

/// Whether a library with these rules is used on `os`: always, without
/// rules; otherwise when the last rule that applies to `os` allows it.
pub open spec fn library_allowed(rules: Seq<Rule>, os: Seq<char>) -> bool {
    rules.len() == 0 || rules_allow(rules, os, rules.len() as int)
}

/// Evaluates a library's rules against `os_name`: no rules means always
/// allowed; otherwise the last rule that applies decides.
pub fn is_library_allowed(rules: &[Rule], os_name: &str) -> (r: bool)
    ensures
        r == library_allowed(rules@, os_name@),
{
    if rules.len() == 0 {
        return true;
    }
    let mut allowed = false;
    let mut i: usize = 0;
    while i < rules.len()
        invariant
            i <= rules.len(),
            rules.len() > 0,
            allowed == rules_allow(rules@, os_name@, i as int),
        decreases rules.len() - i,
    {
        let matches = match &rules[i].os {
            Some(os) => match &os.name {
                Some(n) => str_equals(n.as_str(), os_name),
                None => false,
            },
            None => true,
        };
        if matches {
            allowed = str_equals(rules[i].action.as_str(), "allow");
        }
        i = i + 1;
    }
    allowed
}

/// The libraries used on `os`, in order.
pub open spec fn wanted(libs: Seq<Library>, os: Seq<char>) -> Seq<Library>
    decreases libs.len(),
{
    if libs.len() == 0 {
        Seq::empty()
    } else {
        let prev = wanted(libs.drop_last(), os);
        if library_allowed(libs.last().rules@, os) {
            prev.push(libs.last())
        } else {
            prev
        }
    }
}

/// The files of the libraries used on `os` that have one, in order.
pub open spec fn wanted_artifacts(libs: Seq<Library>, os: Seq<char>) -> Seq<LibraryArtifact>
    decreases libs.len(),
{
    if libs.len() == 0 {
        Seq::empty()
    } else {
        let prev = wanted_artifacts(libs.drop_last(), os);
        if library_allowed(libs.last().rules@, os) && libs.last().downloads.artifact is Some {
            prev.push(libs.last().downloads.artifact->0)
        } else {
            prev
        }
    }
}

/// The files to download for a version's libraries on `os_name`: those
/// of the libraries whose rules allow `os_name` and that have a file.
pub fn library_artifacts(libs: &Vec<Library>, os_name: &str) -> (r: Vec<LibraryArtifact>)
    ensures
        r@.len() == wanted_artifacts(libs@, os_name@).len(),
        forall|i: int| 0 <= i < r@.len() ==> artifact_same(#[trigger] r@[i], wanted_artifacts(libs@, os_name@)[i]),
{
    let mut out: Vec<LibraryArtifact> = Vec::new();
    let mut i: usize = 0;
    while i < libs.len()
        invariant
            i <= libs.len(),
            out@.len() == wanted_artifacts(libs@.take(i as int), os_name@).len(),
            forall|j: int| 0 <= j < out@.len() ==> artifact_same(#[trigger] out@[j], wanted_artifacts(libs@.take(i as int), os_name@)[j]),
        decreases libs.len() - i,
    {
        proof {
            assert(libs@.take(i + 1).drop_last() == libs@.take(i as int));
            assert(libs@.take(i + 1).last() == libs@[i as int]);
        }
        if is_library_allowed(libs[i].rules.as_slice(), os_name) {
            match &libs[i].downloads.artifact {
                Some(a) => {
                    out.push(copy_artifact(a));
                },
                None => {},
            }
        }
        i = i + 1;
    }
    assert(libs@.take(libs.len() as int) == libs@);
    out
}

/// Two artifacts with the same path, SHA-1, size and URL.
pub open spec fn artifact_same(a: LibraryArtifact, b: LibraryArtifact) -> bool {
    a.path@ == b.path@ && a.sha1@ == b.sha1@ && a.size == b.size && a.url@ == b.url@
}

fn copy_artifact(a: &LibraryArtifact) -> (r: LibraryArtifact)
    ensures
        artifact_same(r, *a),
{
    LibraryArtifact { path: a.path.clone(), sha1: a.sha1.clone(), size: a.size, url: a.url.clone() }
}

/// The sum of the sizes of the first `k` files.
pub open spec fn sizes_sum(sizes: Seq<u64>, k: int) -> int
    decreases k,
{
    if k <= 0 {
        0
    } else {
        sizes_sum(sizes, k - 1) + sizes[k - 1]
    }
}

proof fn lemma_sizes_sum_mono(sizes: Seq<u64>, j: int, k: int)
    requires
        0 <= j <= k <= sizes.len(),
    ensures
        sizes_sum(sizes, j) <= sizes_sum(sizes, k),
    decreases k - j,
{
    if j < k {
        lemma_sizes_sum_mono(sizes, j, k - 1);
    }
}

/// How many files there are (as a `u32`, truncated) and their total size.
pub fn download_totals(sizes: &Vec<u64>) -> (r: (u32, u64))
    requires
        sizes_sum(sizes@, sizes.len() as int) <= u64::MAX,
    ensures
        r.0 == sizes.len() as u32,
        r.1 == sizes_sum(sizes@, sizes.len() as int),
{
    let mut total: u64 = 0;
    let mut i: usize = 0;
    while i < sizes.len()
        invariant
            i <= sizes.len(),
            sizes_sum(sizes@, sizes.len() as int) <= u64::MAX,
            total == sizes_sum(sizes@, i as int),
        decreases sizes.len() - i,
    {
        proof {
            lemma_sizes_sum_mono(sizes@, i + 1, sizes.len() as int);
        }
        total = total + sizes[i];
        i = i + 1;
    }
    (sizes.len() as u32, total)
}

// ---------------------------------------------------------------------------
// Assets and the cache
// ---------------------------------------------------------------------------

/// The first two bytes of an asset hash, as text, when they are whole
/// characters (hashes are hex, so in practice its first two digits).
pub open spec fn hash_prefix(h: Seq<char>) -> Option<Seq<char>> {
    if h.len() >= 2 && (h[0] as u32) < 128 && (h[1] as u32) < 128 {
        Some(h.take(2))
    } else if h.len() >= 1 && 128 <= (h[0] as u32) < 0x800 {
        Some(h.take(1))
    } else {
        None
    }
}

fn hash_prefix_exec(hash: &str) -> (r: String)
    requires
        hash_prefix(hash@) is Some,
    ensures
        r@ == hash_prefix(hash@)->0,
{
    let h = chars_of(hash);
    let n: usize = if (h[0] as u32) < 128 {
        2
    } else {
        1
    };
    let p = sub_chars(h.as_slice(), 0, n);
    string_of(p.as_slice())
}

/// Where an asset is downloaded from: its hash under a directory named
/// by the hash's first two characters.
pub open spec fn asset_url(h: Seq<char>) -> Seq<char> {
    "https://resources.download.minecraft.net/"@ + hash_prefix(h)->0 + "/"@ + h
}

/// Where an asset is downloaded from.
pub fn asset_download_url(hash: &str) -> (r: String)
    requires
        hash_prefix(hash@) is Some,
    ensures
        r@ == asset_url(hash@),
{
    let p = hash_prefix_exec(hash);
    let mut v = chars_of("https://resources.download.minecraft.net/");
    append_str(&mut v, p.as_str());
    append_str(&mut v, "/");
    append_str(&mut v, hash);
    string_of(v.as_slice())
}

/// Where an asset is cached: the same layout under
/// `<cache_dir>/assets/objects`.
pub open spec fn asset_path(cache_dir: Seq<char>, h: Seq<char>) -> Seq<char> {
    path_join(path_join(path_join(path_join(cache_dir, "assets"@), "objects"@), hash_prefix(h)->0), h)
}

/// Where an asset is cached.
pub fn asset_cache_path(cache_dir: &str, hash: &str) -> (r: String)
    requires
        hash_prefix(hash@) is Some,
    ensures
        r@ == asset_path(cache_dir@, hash@),
{
    let p = hash_prefix_exec(hash);
    let a = join_path(cache_dir, "assets");
    let b = join_path(a.as_str(), "objects");
    let c = join_path(b.as_str(), p.as_str());
    join_path(c.as_str(), hash)
}

/// Where a version's client jar is cached: `<cache_dir>/versions/<id>/client.jar`.
pub fn client_jar_path(cache_dir: &str, id: &str) -> (r: String)
    ensures
        r@ == path_join(path_join(path_join(cache_dir@, "versions"@), id@), "client.jar"@),
{
    let a = join_path(cache_dir, "versions");
    let b = join_path(a.as_str(), id);
    join_path(b.as_str(), "client.jar")
}

/// The SHA-1 digest of the bytes.
pub uninterp spec fn sha1(bytes: Seq<u8>) -> Seq<u8>;

/// `sha1::Sha1::digest`: the 20-byte SHA-1 digest of the bytes.
#[verifier::external_body]
fn sha1_digest(bytes: &[u8]) -> (d: Vec<u8>)
    ensures
        d@ == sha1(bytes@),
        d.len() == 20,
{
    sha1::Sha1::digest(bytes).to_vec()
}

/// The lowercase hex SHA-1 of the bytes.
pub fn hex_digest(bytes: &[u8]) -> (r: Vec<u8>)
    ensures
        r@ == hex_text(sha1(bytes@)),
{
    let d = sha1_digest(bytes);
    hex_encode(d.as_slice())
}

/// Whether a file counts as cached: it exists (`contents` is `Some`) and
/// its SHA-1 matches `expected_sha1`, ignoring ASCII case.
pub fn is_cached(contents: Option<&[u8]>, expected_sha1: &str) -> (r: bool)
    ensures
        r == match contents {
            Some(c) => eq_ignore_ascii_case(hex_text(sha1(c@)), expected_sha1.spec_bytes()),
            None => false,
        },
{
    match contents {
        None => false,
        Some(c) => {
            let h = hex_digest(c);
            bytes_eq_ignore_ascii_case(h.as_slice(), expected_sha1.as_bytes())
        },
    }
}

// ---------------------------------------------------------------------------
// Progress
// ---------------------------------------------------------------------------

/// `std::time::Instant`, carried between progress reports.
#[verifier::external_type_specification]
#[verifier::external_body]
pub struct ExInstant(Instant);

/// `Instant::now`. Nothing is promised of the value: it is the time.
#[verifier::external_body]
fn instant_now() -> Instant {
    Instant::now()
}

/// `Instant::duration_since`: the time from `earlier` to `later` (zero if
/// `later` comes first). Nothing is promised: it rests on the clock.
#[verifier::external_body]
fn elapsed_between(earlier: &Instant, later: &Instant) -> Duration {
    later.duration_since(*earlier)
}

/// `Duration::as_millis`: the whole milliseconds in `d`. Nothing is
/// promised of the value.
#[verifier::external_body]
fn whole_millis(d: &Duration) -> u128 {
    d.as_millis()
}

/// The time between reports, in milliseconds.
pub const REPORT_INTERVAL_MILLIS: u128 = 100;

/// Whether a progress report is due: 100 ms have passed since the last
/// one, or at least 1,000,000 more bytes are done.
pub open spec fn report_due(waited: bool, bytes_done: u64, last_bytes: u64) -> bool {
    waited || (if bytes_done >= last_bytes { bytes_done - last_bytes } else { 0 }) >= 1_000_000
}

/// Whether a progress report is due, given whether 100 ms have passed.
pub fn throttle_decision(waited: bool, bytes_done: u64, last_bytes: u64) -> (r: bool)
    ensures
        r == report_due(waited, bytes_done, last_bytes),
{
    waited || bytes_done.saturating_sub(last_bytes) >= 1_000_000
}

/// Caps how often progress is reported: at most once per 100 ms, or once
/// per 1,000,000 more bytes, whichever comes first.
pub struct ProgressThrottle {
    last_emit: Instant,
    last_bytes: u64,
}

impl ProgressThrottle {
    /// The bytes done at the last report.
    pub closed spec fn reported_bytes(self) -> u64 {
        self.last_bytes
    }

    /// A throttle that last reported now, at 0 bytes.
    pub fn new() -> (t: Self)
        ensures
            t.reported_bytes() == 0,
    {
        ProgressThrottle { last_emit: instant_now(), last_bytes: 0 }
    }

    /// The instant of the last report.
    pub closed spec fn reported_at(self) -> Instant {
        self.last_emit
    }

    /// Whether to report `bytes_done` at instant `now`: always once
    /// 1,000,000 more bytes are done since the last report, otherwise when
    /// at least 100 ms passed from the last report to `now`. A report
    /// records `now` and `bytes_done`; no report changes nothing.
    pub fn should_emit_at(&mut self, now: Instant, bytes_done: u64) -> (r: bool)
        ensures
            report_due(false, bytes_done, old(self).reported_bytes()) ==> r,
            r ==> final(self).reported_at() == now && final(self).reported_bytes() == bytes_done,
            !r ==> *final(self) == *old(self),
    {
        let elapsed = elapsed_between(&self.last_emit, &now);
        let waited = whole_millis(&elapsed) >= REPORT_INTERVAL_MILLIS;
        if throttle_decision(waited, bytes_done, self.last_bytes) {
            self.last_emit = now;
            self.last_bytes = bytes_done;
            true
        } else {
            false
        }
    }

    /// Whether to report `bytes_done` now: reads the clock once and
    /// decides as `should_emit_at` does at that instant, which a report
    /// records with `bytes_done`; no report changes nothing.
    pub fn should_emit(&mut self, bytes_done: u64) -> (r: bool)
        ensures
            report_due(false, bytes_done, old(self).reported_bytes()) ==> r,
            r ==> final(self).reported_bytes() == bytes_done,
            !r ==> *final(self) == *old(self),
    {
        let now = instant_now();
        self.should_emit_at(now, bytes_done)
    }
}

/// Progress through a set of files downloaded in any order.
pub struct DownloadTally {
    pub files_done: u32,
    pub files_total: u32,
    pub bytes_done: u64,
    pub bytes_total: u64,
}

impl DownloadTally {
    /// Records one more finished file of `size` bytes, and says whether
    /// to report (`report_now`: what the throttle says): always after the
    /// last file. Counts wrap at their width only on inputs the caller
    /// cannot produce; see `requires`.
    pub fn record(&mut self, size: u64, report_now: bool) -> (r: bool)
        requires
            old(self).files_done < u32::MAX,
            old(self).bytes_done + size <= u64::MAX,
        ensures
            final(self).files_done == old(self).files_done + 1,
            final(self).bytes_done == old(self).bytes_done + size,
            final(self).files_total == old(self).files_total,
            final(self).bytes_total == old(self).bytes_total,
            r == (report_now || final(self).files_done == old(self).files_total),
    {
        self.files_done = self.files_done + 1;
        self.bytes_done = self.bytes_done + size;
        report_now || self.files_done == self.files_total
    }
}

} // verus!

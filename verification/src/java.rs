//! Java runtimes: reading `java -version` output, naming vendors,
//! checking downloaded archives against their checksum, and choosing
//! which candidate binaries to probe.
use vstd::prelude::*;

use crate::text::{chars_of, contains_chars, contains_str, find_char, first_index_of, lemma_first_index_of, lines, lines_of, parse_u32, str_equals, string_lit, string_of, sub_chars, unsigned_value};
use crate::text::{lemma_parts_lt_irreflexive, lemma_parts_lt_total, lemma_parts_lt_transitive, parts_before, parts_lt, parts_same, parts_view, path_parts, path_parts_of, strs_view};
use crate::text::{append_chars, append_str, decimal, join_path, path_join, u64_decimal};

use sha2::Digest;
use vstd::string::StringSliceAdditionalSpecFns;

verus! {

/// Why a Java operation failed.
#[derive(Debug, Clone, PartialEq, Eq)]
pub enum JavaError {
    /// `java -version` printed something that is not a version (the
    /// whole output).
    UnrecognizedVersionOutput(String),
    Network(String),
    UnrecognizedApiResponse(String),
    Io(String),
    /// A downloaded archive does not have the expected SHA-256.
    ChecksumMismatch { expected: String, actual: String },
}

/// Progress of installing a runtime.
#[derive(Debug, Clone, PartialEq, Eq)]
pub enum InstallStage {
    Downloading { bytes_done: u64, bytes_total: u64 },
    Verifying,
    Extracting,
    Done,
}

/// A Java runtime found on this machine.
#[derive(Debug, Clone, PartialEq, Eq)]
pub struct DetectedJava {
    pub path: String,
    pub major_version: u32,
    pub vendor: String,
}

// ---------------------------------------------------------------------------
// `java -version`
// ---------------------------------------------------------------------------

/// The text between the first two `"` of `line`.
pub open spec fn quoted(line: Seq<char>) -> Option<Seq<char>> {
    match first_index_of(line, '"') {
        None => None,
        Some(i) => {
            let rest = line.skip(i + 1);
            match first_index_of(rest, '"') {
                None => None,
                Some(j) => Some(rest.take(j)),
            }
        },
    }
}

/// The text between the first two `"` of `line`.
pub fn extract_quoted(line: &str) -> (r: Option<String>)
    ensures
        match r {
            Some(s) => quoted(line@) == Some(s@),
            None => quoted(line@) is None,
        },
{
    let cs = chars_of(line);
    let i = match find_char(cs.as_slice(), '"') {
        Some(i) => i,
        None => {
            return None;
        },
    };
    proof {
        lemma_first_index_of(cs@, '"');
        assert(i < cs.len());
    }
    let rest = sub_chars(cs.as_slice(), i + 1, cs.len());
    assert(rest@ == line@.skip(i + 1));
    let j = match find_char(rest.as_slice(), '"') {
        Some(j) => j,
        None => {
            return None;
        },
    };
    proof {
        lemma_first_index_of(rest@, '"');
    }
    let v = sub_chars(rest.as_slice(), 0, j);
    assert(v@ == rest@.take(j as int));
    Some(string_of(v.as_slice()))
}

/// The first `.`-separated component of `v`, and what follows its `.`
/// (if any).
pub open spec fn first_component(v: Seq<char>) -> (Seq<char>, Option<Seq<char>>) {
    match first_index_of(v, '.') {
        None => (v, None),
        Some(i) => (v.take(i), Some(v.skip(i + 1))),
    }
}

/// A `u32` as `str::parse` reads it.
pub open spec fn u32_of(s: Seq<char>) -> Option<u32> {
    match unsigned_value(s) {
        Some(v) => if v <= u32::MAX {
            Some(v as u32)
        } else {
            None
        },
        None => None,
    }
}

/// The major version in a version string: its first component, except
/// in the old scheme (`1.8.0_412`), where a first component of 1 means
/// the second one is the major version.
pub open spec fn major_of(v: Seq<char>) -> Option<u32> {
    let (c0, rest) = first_component(v);
    match u32_of(c0) {
        None => None,
        Some(first) => if first == 1 {
            match rest {
                None => None,
                Some(r) => u32_of(first_component(r).0),
            }
        } else {
            Some(first)
        },
    }
}

fn split_first_component(v: &[char]) -> (r: (Vec<char>, Option<Vec<char>>))
    ensures
        r.0@ == first_component(v@).0,
        match r.1 {
            Some(x) => first_component(v@).1 == Some(x@),
            None => first_component(v@).1 is None,
        },
{
    match find_char(v, '.') {
        None => {
            let all = sub_chars(v, 0, v.len());
            assert(all@ == v@);
            (all, None)
        },
        Some(i) => {
            proof {
                lemma_first_index_of(v@, '.');
            }
            assert(i < v.len());
            let a = sub_chars(v, 0, i);
            let b = sub_chars(v, i + 1, v.len());
            assert(a@ == v@.take(i as int));
            assert(b@ == v@.skip(i + 1));
            (a, Some(b))
        },
    }
}

fn parse_u32_exact(s: &[char]) -> (r: Option<u32>)
    ensures
        r == u32_of(s@),
{
    match parse_u32(s) {
        Some(v) => Some(v),
        None => None,
    }
}

/// The major version in a version string (see `major_of`).
pub fn major_from_version_string(version: &str) -> (r: Option<u32>)
    ensures
        r == major_of(version@),
{
    let cs = chars_of(version);
    let (c0, rest) = split_first_component(cs.as_slice());
    let first = match parse_u32_exact(c0.as_slice()) {
        Some(f) => f,
        None => {
            return None;
        },
    };
    if first == 1 {
        match rest {
            None => None,
            Some(r) => {
                let (c1, _) = split_first_component(r.as_slice());
                parse_u32_exact(c1.as_slice())
            },
        }
    } else {
        Some(first)
    }
}

/// The vendor a runtime's second `-version` line names.
pub open spec fn vendor_of(line: Seq<char>) -> Seq<char> {
    if contains_chars(line, "Temurin"@) {
        "Eclipse Temurin"@
    } else if contains_chars(line, "Corretto"@) {
        "Amazon Corretto"@
    } else if contains_chars(line, "Zulu"@) {
        "Azul Zulu"@
    } else if contains_chars(line, "Microsoft"@) {
        "Microsoft Build of OpenJDK"@
    } else if contains_chars(line, "Java(TM) SE Runtime"@) {
        "Oracle"@
    } else {
        "OpenJDK"@
    }
}

/// The vendor a runtime's second `-version` line names.
pub fn vendor_from_line(line: &str) -> (r: String)
    ensures
        r@ == vendor_of(line@),
{
    let cs = chars_of(line);
    if contains_str(cs.as_slice(), "Temurin") {
        string_lit("Eclipse Temurin")
    } else if contains_str(cs.as_slice(), "Corretto") {
        string_lit("Amazon Corretto")
    } else if contains_str(cs.as_slice(), "Zulu") {
        string_lit("Azul Zulu")
    } else if contains_str(cs.as_slice(), "Microsoft") {
        string_lit("Microsoft Build of OpenJDK")
    } else if contains_str(cs.as_slice(), "Java(TM) SE Runtime") {
        string_lit("Oracle")
    } else {
        string_lit("OpenJDK")
    }
}

/// What `java -version` output says: the major version (from the quoted
/// version on its first line) and the vendor (from its second line, or
/// an empty line when there is none); `None` when the first line has no
/// quoted version with a readable major version.
pub open spec fn java_version_of(output: Seq<char>) -> Option<(u32, Seq<char>)> {
    let ls = lines(output);
    if ls.len() == 0 {
        None
    } else {
        match quoted(ls[0]) {
            None => None,
            Some(v) => match major_of(v) {
                None => None,
                Some(m) => Some((m, vendor_of(if ls.len() > 1 { ls[1] } else { Seq::empty() }))),
            },
        }
    }
}

/// Parses the text `java -version` prints into the major version and the
/// vendor. Anything else is `UnrecognizedVersionOutput` with the whole
/// output.
pub fn parse_java_version(output: &str) -> (r: Result<(u32, String), JavaError>)
    ensures
        match r {
            Ok((m, v)) => java_version_of(output@) == Some((m, v@)),
            Err(e) => java_version_of(output@) is None && e == JavaError::UnrecognizedVersionOutput(
                e->UnrecognizedVersionOutput_0,
            ) && e->UnrecognizedVersionOutput_0@ == output@,
        },
{
    let cs = chars_of(output);
    let ls = lines_of(cs.as_slice());
    if ls.len() == 0 {
        return Err(JavaError::UnrecognizedVersionOutput(string_lit(output)));
    }
    let first = string_of(ls[0].as_slice());
    let v = match extract_quoted(first.as_str()) {
        Some(v) => v,
        None => {
            return Err(JavaError::UnrecognizedVersionOutput(string_lit(output)));
        },
    };
    let m = match major_from_version_string(v.as_str()) {
        Some(m) => m,
        None => {
            return Err(JavaError::UnrecognizedVersionOutput(string_lit(output)));
        },
    };
    let second = if ls.len() > 1 {
        string_of(ls[1].as_slice())
    } else {
        String::new()
    };
    Ok((m, vendor_from_line(second.as_str())))
}

/// How a vendor reported by the Adoptium API is shown.
pub open spec fn display_vendor_of(v: Seq<char>) -> Seq<char> {
    if v == "eclipse"@ {
        "Eclipse Temurin"@
    } else {
        v
    }
}

/// How a vendor reported by the Adoptium API is shown: `eclipse` is
/// Eclipse Temurin; any other name is shown as it is.
pub fn display_vendor(adoptium_vendor: &str) -> (r: String)
    ensures
        r@ == display_vendor_of(adoptium_vendor@),
{
    if str_equals(adoptium_vendor, "eclipse") {
        string_lit("Eclipse Temurin")
    } else {
        string_lit(adoptium_vendor)
    }
}

// ---------------------------------------------------------------------------
// Checksums
// ---------------------------------------------------------------------------

/// The SHA-256 digest of the bytes.
pub uninterp spec fn sha256(bytes: Seq<u8>) -> Seq<u8>;

/// `sha2::Sha256::digest`: the 32-byte SHA-256 digest of the bytes.
#[verifier::external_body]
fn sha256_digest(bytes: &[u8]) -> (d: Vec<u8>)
    ensures
        d@ == sha256(bytes@),
        d.len() == 32,
{
    sha2::Sha256::digest(bytes).to_vec()
}

/// The ASCII code of the lowercase hex digit of `d` (below 16).
pub open spec fn hex_byte(d: nat) -> u8 {
    if d < 10 {
        (48 + d) as u8
    } else {
        (87 + d) as u8
    }
}

/// The bytes as lowercase hex text (ASCII), two digits per byte.
pub open spec fn hex_text(bs: Seq<u8>) -> Seq<u8>
    decreases bs.len(),
{
    if bs.len() == 0 {
        Seq::empty()
    } else {
        hex_text(bs.drop_last()) + seq![hex_byte(bs.last() as nat / 16), hex_byte(bs.last() as nat % 16)]
    }
}

/// The bytes as lowercase hex text.
pub fn hex_encode(bs: &[u8]) -> (r: Vec<u8>)
    ensures
        r@ == hex_text(bs@),
{
    let mut r: Vec<u8> = Vec::new();
    let mut i: usize = 0;
    while i < bs.len()
        invariant
            i <= bs.len(),
            r@ == hex_text(bs@.take(i as int)),
        decreases bs.len() - i,
    {
        let b = bs[i];
        let hi = b / 16;
        let lo = b % 16;
        r.push(if hi < 10 { 48 + hi } else { 87 + hi });
        r.push(if lo < 10 { 48 + lo } else { 87 + lo });
        assert(bs@.take(i + 1).drop_last() == bs@.take(i as int));
        i = i + 1;
    }
    assert(bs@.take(bs.len() as int) == bs@);
    r
}

/// `u8::to_ascii_lowercase`.
pub open spec fn ascii_lower(b: u8) -> u8 {
    if 65 <= b <= 90 {
        (b + 32) as u8
    } else {
        b
    }
}

/// `eq_ignore_ascii_case` on byte strings: same length, and equal once
/// ASCII letters are lowercased.
pub open spec fn eq_ignore_ascii_case(a: Seq<u8>, b: Seq<u8>) -> bool {
    a.len() == b.len() && forall|i: int| 0 <= i < a.len() ==> ascii_lower(#[trigger] a[i]) == ascii_lower(b[i])
}

/// Whether two byte strings are equal ignoring ASCII case.
pub fn bytes_eq_ignore_ascii_case(a: &[u8], b: &[u8]) -> (r: bool)
    ensures
        r == eq_ignore_ascii_case(a@, b@),
{
    if a.len() != b.len() {
        return false;
    }
    let mut i: usize = 0;
    while i < a.len()
        invariant
            i <= a.len(),
            a.len() == b.len(),
            forall|j: int| 0 <= j < i ==> ascii_lower(#[trigger] a@[j]) == ascii_lower(b@[j]),
        decreases a.len() - i,
    {
        let x = if 65 <= a[i] && a[i] <= 90 { a[i] + 32 } else { a[i] };
        let y = if 65 <= b[i] && b[i] <= 90 { b[i] + 32 } else { b[i] };
        if x != y {
            return false;
        }
        i = i + 1;
    }
    true
}

/// Text from ASCII bytes.
fn ascii_string(bs: &Vec<u8>) -> (s: String)
    requires
        forall|i: int| 0 <= i < bs.len() ==> bs@[i] < 128,
    ensures
        s@ == bs@.map_values(|b: u8| b as char),
{
    let mut v: Vec<char> = Vec::new();
    let mut i: usize = 0;
    while i < bs.len()
        invariant
            i <= bs.len(),
            forall|i: int| 0 <= i < bs.len() ==> bs@[i] < 128,
            v@ == bs@.take(i as int).map_values(|b: u8| b as char),
        decreases bs.len() - i,
    {
        let c = bs[i] as char;
        v.push(c);
        assert(bs@.take(i + 1).map_values(|b: u8| b as char) == bs@.take(i as int).map_values(
            |b: u8| b as char,
        ).push(bs@[i as int] as char));
        i = i + 1;
    }
    assert(bs@.take(bs.len() as int) == bs@);
    string_of(v.as_slice())
}

proof fn lemma_hex_ascii(bs: Seq<u8>)
    ensures
        forall|i: int| 0 <= i < hex_text(bs).len() ==> #[trigger] hex_text(bs)[i] < 128,
    decreases bs.len(),
{
    if bs.len() > 0 {
        lemma_hex_ascii(bs.drop_last());
        let prev = hex_text(bs.drop_last());
        let b = bs.last() as nat;
        assert(b / 16 < 16 && b % 16 < 16);
        assert forall|i: int| 0 <= i < hex_text(bs).len() implies #[trigger] hex_text(bs)[i] < 128 by {
            if i < prev.len() {
                assert(hex_text(bs)[i] == prev[i]);
            }
        }
    }
}

/// Checks the contents of a downloaded archive against the SHA-256
/// Adoptium reports (hex, any case): `Ok` exactly when the lowercase hex
/// of the contents' digest equals `expected_hex` ignoring ASCII case;
/// otherwise `ChecksumMismatch` with both texts.
pub fn verify_checksum(contents: &[u8], expected_hex: &str) -> (r: Result<(), JavaError>)
    ensures
        r is Ok <==> eq_ignore_ascii_case(hex_text(sha256(contents@)), expected_hex.spec_bytes()),
        r matches Err(e) ==> e is ChecksumMismatch && e->expected@ == expected_hex@ && e->actual@
            == hex_text(sha256(contents@)).map_values(|b: u8| b as char),
{
    let digest = sha256_digest(contents);
    let hex = hex_encode(digest.as_slice());
    if bytes_eq_ignore_ascii_case(hex.as_slice(), expected_hex.as_bytes()) {
        Ok(())
    } else {
        proof {
            lemma_hex_ascii(digest@);
        }
        Err(JavaError::ChecksumMismatch { expected: string_lit(expected_hex), actual: ascii_string(&hex) })
    }
}

// ---------------------------------------------------------------------------
// Detection
// ---------------------------------------------------------------------------

/// `bins[k]` is the first of `bins` with its components: no earlier path
/// names the same file by `Path`'s equality.
pub open spec fn first_of_its_parts(bins: Seq<Seq<char>>, k: int) -> bool {
    &&& 0 <= k < bins.len()
    &&& forall|j: int| 0 <= j < k ==> path_parts(#[trigger] bins[j]) != path_parts(bins[k])
}

/// Some path among `ks` has the components of `x`.
#[verifier::opaque]
pub open spec fn represented(ks: Seq<Seq<Seq<char>>>, x: Seq<char>) -> bool {
    exists|i: int| 0 <= i < ks.len() && ks[i] == path_parts(x)
}

/// `x` is, among the first `k` of `bins`, the first given with its
/// components.
#[verifier::opaque]
pub open spec fn first_given(bins: Seq<Seq<char>>, k: int, x: Seq<char>) -> bool {
    exists|kk: int| #[trigger] first_of_its_parts(bins, kk) && kk < k && bins[kk] == x
}

/// What the candidates chosen from the first `k` paths of `bins` are:
/// `o`, with components `ks`, ascending, each the first path given with
/// its components, and every path so far represented.
pub open spec fn candidates_so_far(bins: Seq<Seq<char>>, k: int, o: Seq<Seq<char>>, ks: Seq<Seq<Seq<char>>>) -> bool {
    &&& o.len() == ks.len()
    &&& forall|i: int| 0 <= i < o.len() ==> #[trigger] ks[i] == path_parts(o[i])
    &&& forall|i: int, j: int| 0 <= i < j < o.len() ==> parts_lt(#[trigger] ks[i], #[trigger] ks[j])
    &&& forall|i: int| 0 <= i < o.len() ==> #[trigger] first_given(bins, k, o[i])
    &&& forall|kk: int| 0 <= kk < k ==> #[trigger] represented(ks, bins[kk])
}

/// Adding path `k`, whose components equal those held at `p`, keeps the
/// candidates as they are.
proof fn lemma_candidates_same(bins: Seq<Seq<char>>, k: int, o: Seq<Seq<char>>, ks: Seq<Seq<Seq<char>>>, p: int)
    requires
        0 <= k < bins.len(),
        candidates_so_far(bins, k, o, ks),
        0 <= p < o.len(),
        ks[p] == path_parts(bins[k]),
    ensures
        candidates_so_far(bins, k + 1, o, ks),
{
    assert forall|i: int| 0 <= i < o.len() implies #[trigger] first_given(bins, k + 1, o[i]) by {
        assert(first_given(bins, k, o[i]));
        reveal(first_given);
        let kk = choose|kk: int| #[trigger] first_of_its_parts(bins, kk) && kk < k && bins[kk] == o[i];
        assert(first_of_its_parts(bins, kk) && kk < k + 1 && bins[kk] == o[i]);
    }
    assert forall|kk: int| 0 <= kk < k + 1 implies #[trigger] represented(ks, bins[kk]) by {
        if kk == k {
            reveal(represented);
            assert(ks[p] == path_parts(bins[kk]));
        }
    }
}

/// Adding path `k` at position `p`, after everything before it and
/// before everything from `p` on, with no held path of equal components,
/// keeps the candidates as they should be.
proof fn lemma_candidates_insert(bins: Seq<Seq<char>>, k: int, o: Seq<Seq<char>>, ks: Seq<Seq<Seq<char>>>, p: int)
    requires
        0 <= k < bins.len(),
        candidates_so_far(bins, k, o, ks),
        0 <= p <= o.len(),
        forall|j: int| 0 <= j < p ==> #[trigger] parts_lt(ks[j], path_parts(bins[k])),
        p == o.len() || !parts_lt(ks[p], path_parts(bins[k])),
        p == o.len() || ks[p] != path_parts(bins[k]),
    ensures
        candidates_so_far(bins, k + 1, o.insert(p, bins[k]), ks.insert(p, path_parts(bins[k]))),
{
    let xk = path_parts(bins[k]);
    let o2 = o.insert(p, bins[k]);
    let k2 = ks.insert(p, xk);
    lemma_parts_lt_irreflexive(xk);
    if p < o.len() {
        lemma_parts_lt_total(ks[p], xk);
    }
    assert forall|j: int| 0 <= j < k implies path_parts(#[trigger] bins[j]) != xk by {
        if path_parts(bins[j]) == xk {
            assert(represented(ks, bins[j]));
            reveal(represented);
            let i = choose|i: int| 0 <= i < ks.len() && ks[i] == path_parts(bins[j]);
            if i > p {
                assert(parts_lt(ks[p], ks[i]));
            }
        }
    }
    assert(first_of_its_parts(bins, k));
    assert forall|i: int| 0 <= i < o2.len() implies #[trigger] k2[i] == path_parts(o2[i]) by {
        if i < p {
            assert(k2[i] == ks[i] && o2[i] == o[i]);
        } else if i > p {
            assert(k2[i] == ks[i - 1] && o2[i] == o[i - 1]);
        }
    }
    assert forall|i: int, j: int| 0 <= i < j < o2.len() implies parts_lt(#[trigger] k2[i], #[trigger] k2[j]) by {
        if i < p && j < p {
            assert(k2[i] == ks[i] && k2[j] == ks[j]);
        } else if i < p && j == p {
            assert(k2[i] == ks[i]);
        } else if i < p {
            assert(k2[i] == ks[i] && k2[j] == ks[j - 1]);
            assert(parts_lt(ks[i], xk));
            lemma_parts_lt_transitive(ks[i], xk, ks[p]);
            if j - 1 > p {
                assert(parts_lt(ks[p], ks[j - 1]));
                lemma_parts_lt_transitive(ks[i], ks[p], ks[j - 1]);
            }
        } else if i == p {
            assert(k2[j] == ks[j - 1]);
            if j - 1 > p {
                assert(parts_lt(ks[p], ks[j - 1]));
                lemma_parts_lt_transitive(xk, ks[p], ks[j - 1]);
            }
        } else {
            assert(k2[i] == ks[i - 1] && k2[j] == ks[j - 1]);
        }
    }
    assert forall|i: int| 0 <= i < o2.len() implies #[trigger] first_given(bins, k + 1, o2[i]) by {
        if i == p {
            reveal(first_given);
            assert(first_of_its_parts(bins, k) && bins[k] == o2[i]);
        } else {
            let oi = if i < p { i } else { i - 1 };
            assert(o2[i] == o[oi]);
            assert(first_given(bins, k, o[oi]));
            reveal(first_given);
            let kk = choose|kk: int| #[trigger] first_of_its_parts(bins, kk) && kk < k && bins[kk] == o[oi];
            assert(first_of_its_parts(bins, kk) && kk < k + 1 && bins[kk] == o2[i]);
        }
    }
    assert forall|kk: int| 0 <= kk < k + 1 implies #[trigger] represented(k2, bins[kk]) by {
        if kk == k {
            reveal(represented);
            assert(k2[p] == path_parts(bins[kk]));
        } else {
            assert(represented(ks, bins[kk]));
            reveal(represented);
            let i = choose|i: int| 0 <= i < ks.len() && ks[i] == path_parts(bins[kk]);
            let ni = if i < p { i } else { i + 1 };
            assert(k2[ni] == ks[i]);
        }
    }
}

/// Some path of `o` has the components of `x`: names the same file by
/// `Path`'s equality.
#[verifier::opaque]
pub open spec fn held(o: Seq<Seq<char>>, x: Seq<char>) -> bool {
    exists|i: int| 0 <= i < o.len() && path_parts(o[i]) == path_parts(x)
}

/// Once every path is added, the candidates are ascending, each the first
/// path given with its components, and every path is represented.
proof fn lemma_candidates_done(bins: Seq<Seq<char>>, o: Seq<Seq<char>>, ks: Seq<Seq<Seq<char>>>)
    requires
        candidates_so_far(bins, bins.len() as int, o, ks),
    ensures
        forall|i: int| 0 <= i < o.len() - 1 ==> #[trigger] parts_lt(path_parts(o[i]), path_parts(o[i + 1])),
        forall|i: int| 0 <= i < o.len() ==> #[trigger] first_given(bins, bins.len() as int, o[i]),
        forall|k: int| 0 <= k < bins.len() ==> #[trigger] held(o, bins[k]),
{
    assert forall|i: int| 0 <= i < o.len() - 1 implies #[trigger] parts_lt(path_parts(o[i]), path_parts(o[i + 1])) by {
        assert(parts_lt(ks[i], ks[i + 1]));
        assert(ks[i] == path_parts(o[i]) && ks[i + 1] == path_parts(o[i + 1]));
    }
    assert forall|k: int| 0 <= k < bins.len() implies #[trigger] held(o, bins[k]) by {
        assert(represented(ks, bins[k]));
        reveal(represented);
        let i = choose|i: int| 0 <= i < ks.len() && ks[i] == path_parts(bins[k]);
        assert(ks[i] == path_parts(o[i]));
        reveal(held);
    }
}

/// The components of each list.
pub open spec fn keys_view(v: Seq<Vec<Vec<char>>>) -> Seq<Seq<Seq<char>>> {
    v.map_values(|x: Vec<Vec<char>>| parts_view(x@))
}

/// The candidate binaries to probe, as sorting and then deduplicating
/// `PathBuf`s gives them: ascending by components (`Path`'s order), each
/// set of paths with equal components once, by the first of them given.
pub fn java_candidates(binaries: &Vec<String>) -> (r: Vec<String>)
    ensures
        forall|i: int|
            0 <= i < r.len() - 1 ==> #[trigger] parts_lt(path_parts(strs_view(r@)[i]), path_parts(strs_view(r@)[i + 1])),
        forall|i: int|
            0 <= i < r.len() ==> #[trigger] first_given(strs_view(binaries@), binaries.len() as int, strs_view(r@)[i]),
        forall|k: int| 0 <= k < binaries.len() ==> #[trigger] held(strs_view(r@), strs_view(binaries@)[k]),
{
    let ghost bs = strs_view(binaries@);
    let mut out: Vec<String> = Vec::new();
    let mut keys: Vec<Vec<Vec<char>>> = Vec::new();
    let mut k: usize = 0;
    assert(candidates_so_far(bs, 0, strs_view(out@), keys_view(keys@)));
    while k < binaries.len()
        invariant
            k <= binaries.len(),
            bs == strs_view(binaries@),
            candidates_so_far(bs, k as int, strs_view(out@), keys_view(keys@)),
        decreases binaries.len() - k,
    {
        let x = path_parts_of(binaries[k].as_str());
        let ghost xk = parts_view(x@);
        let ghost ks = keys_view(keys@);
        let ghost os = strs_view(out@);
        assert(xk == path_parts(bs[k as int]));
        let mut p: usize = 0;
        while p < keys.len()
            invariant
                p <= keys.len(),
                ks == keys_view(keys@),
                xk == parts_view(x@),
                forall|j: int| 0 <= j < p ==> #[trigger] parts_lt(ks[j], xk),
            ensures
                p <= keys.len(),
                forall|j: int| 0 <= j < p ==> #[trigger] parts_lt(ks[j], xk),
                p == keys.len() || !parts_lt(ks[p as int], xk),
            decreases keys.len() - p,
        {
            assert(ks[p as int] == parts_view(keys@[p as int]@));
            if !parts_before(&keys[p], &x) {
                break;
            }
            p = p + 1;
        }
        let dup = p < keys.len() && parts_same(&keys[p], &x);
        if dup {
            proof {
                assert(ks[p as int] == parts_view(keys@[p as int]@));
                lemma_candidates_same(bs, k as int, os, ks, p as int);
            }
        } else {
            proof {
                if p < keys.len() {
                    assert(ks[p as int] == parts_view(keys@[p as int]@));
                }
                lemma_candidates_insert(bs, k as int, os, ks, p as int);
            }
            let b = binaries[k].clone();
            out.insert(p, b);
            keys.insert(p, x);
            proof {
                assert(strs_view(out@) == os.insert(p as int, bs[k as int]));
                assert(keys_view(keys@) == ks.insert(p as int, xk));
            }
        }
        k = k + 1;
    }
    proof {
        lemma_candidates_done(bs, strs_view(out@), keys_view(keys@));
    }
    out
}

/// The runtimes the probes found: for each binary whose `-version`
/// output (its standard error, when it ran) parses, its major version and
/// vendor, in order.
pub open spec fn detected(bins: Seq<Seq<char>>, outs: Seq<Option<String>>) -> Seq<(Seq<char>, u32, Seq<char>)>
    decreases bins.len(),
{
    if bins.len() == 0 || outs.len() != bins.len() {
        Seq::empty()
    } else {
        let prev = detected(bins.drop_last(), outs.drop_last());
        match outs.last() {
            Some(t) => match java_version_of(t@) {
                Some((m, v)) => prev.push((bins.last(), m, v)),
                None => prev,
            },
            None => prev,
        }
    }
}

/// The view of a detected runtime.
pub open spec fn detected_view(d: DetectedJava) -> (Seq<char>, u32, Seq<char>) {
    (d.path@, d.major_version, d.vendor@)
}

/// Keeps the probed binaries whose `java -version` output parses:
/// `outputs[i]` is what binary `i` printed to its standard error, or
/// `None` when it could not be run.
pub fn detect_installations(binaries: &Vec<String>, outputs: &Vec<Option<String>>) -> (r: Vec<DetectedJava>)
    requires
        binaries.len() == outputs.len(),
    ensures
        r@.map_values(|d: DetectedJava| detected_view(d)) == detected(strs_view(binaries@), outputs@),
{
    let mut out: Vec<DetectedJava> = Vec::new();
    let mut i: usize = 0;
    while i < binaries.len()
        invariant
            i <= binaries.len(),
            binaries.len() == outputs.len(),
            out@.map_values(|d: DetectedJava| detected_view(d)) == detected(
                strs_view(binaries@.take(i as int)),
                outputs@.take(i as int),
            ),
        decreases binaries.len() - i,
    {
        proof {
            assert(strs_view(binaries@.take(i + 1)).drop_last() == strs_view(binaries@.take(i as int)));
            assert(outputs@.take(i + 1).drop_last() == outputs@.take(i as int));
            assert(strs_view(binaries@.take(i + 1)).last() == binaries@[i as int]@);
        }
        match &outputs[i] {
            Some(t) => match parse_java_version(t.as_str()) {
                Ok((m, v)) => {
                    let d = DetectedJava { path: binaries[i].clone(), major_version: m, vendor: v };
                    let ghost before = out@;
                    out.push(d);
                    assert(out@.map_values(|d: DetectedJava| detected_view(d)) == before.map_values(
                        |d: DetectedJava| detected_view(d),
                    ).push(detected_view(d)));
                },
                Err(_) => {},
            },
            None => {},
        }
        i = i + 1;
    }
    assert(binaries@.take(binaries.len() as int) == binaries@);
    assert(outputs@.take(outputs.len() as int) == outputs@);
    out
}


// ---------------------------------------------------------------------------
// The Adoptium API
// ---------------------------------------------------------------------------

/// The feature releases Adoptium offers, and which of them are LTS.
#[derive(Debug, Clone, PartialEq, Eq)]
pub struct AvailableReleases {
    pub available_releases: Vec<u32>,
    pub available_lts_releases: Vec<u32>,
}

/// One downloadable build.
#[derive(Debug, Clone, PartialEq, Eq)]
pub struct JavaAsset {
    pub vendor: String,
    pub version: AssetVersion,
    pub binary: AssetBinary,
}

/// The version of a build.
#[derive(Debug, Clone, PartialEq, Eq)]
pub struct AssetVersion {
    pub openjdk_version: String,
}

/// The binary of a build.
#[derive(Debug, Clone, PartialEq, Eq)]
pub struct AssetBinary {
    pub package: AssetPackage,
}

/// The archive of a build: file name, address, SHA-256 (hex) and size.
#[derive(Debug, Clone, PartialEq, Eq)]
pub struct AssetPackage {
    pub name: String,
    pub link: String,
    pub checksum: String,
    pub size: u64,
}

/// The base address of the Adoptium API.
pub open spec fn api_base() -> Seq<char> {
    "https://api.adoptium.net/v3"@
}

/// Adoptium's name for an operating system: `macos` is `mac`, any other
/// name is the same.
pub open spec fn adoptium_os_of(os: Seq<char>) -> Seq<char> {
    if os == "macos"@ {
        "mac"@
    } else {
        os
    }
}

/// Adoptium's name for an operating system (as Rust names it).
pub fn adoptium_os(os: &str) -> (r: String)
    ensures
        r@ == adoptium_os_of(os@),
{
    if str_equals(os, "macos") {
        string_lit("mac")
    } else {
        string_lit(os)
    }
}

/// Adoptium's name for an architecture: `x86_64` is `x64`, any other name
/// is the same.
pub open spec fn adoptium_arch_of(arch: Seq<char>) -> Seq<char> {
    if arch == "x86_64"@ {
        "x64"@
    } else {
        arch
    }
}

/// Adoptium's name for an architecture (as Rust names it).
pub fn adoptium_arch(arch: &str) -> (r: String)
    ensures
        r@ == adoptium_arch_of(arch@),
{
    if str_equals(arch, "x86_64") {
        string_lit("x64")
    } else {
        string_lit(arch)
    }
}

/// The address that lists the available releases.
pub fn available_releases_url() -> (r: String)
    ensures
        r@ == api_base() + "/info/available_releases"@,
{
    let mut v = chars_of("https://api.adoptium.net/v3");
    append_str(&mut v, "/info/available_releases");
    string_of(v.as_slice())
}

/// The address of the latest JDK builds of a feature version for an
/// operating system and architecture (both as Rust names them).
pub open spec fn latest_asset_address(feature_version: u32, os: Seq<char>, arch: Seq<char>) -> Seq<char> {
    api_base() + "/assets/latest/"@ + decimal(feature_version as nat) + "/hotspot?image_type=jdk&os="@
        + adoptium_os_of(os) + "&architecture="@ + adoptium_arch_of(arch)
}

/// The address of the latest JDK builds of a feature version.
pub fn latest_asset_url(feature_version: u32, os: &str, arch: &str) -> (r: String)
    ensures
        r@ == latest_asset_address(feature_version, os@, arch@),
{
    let mut v = chars_of("https://api.adoptium.net/v3");
    append_str(&mut v, "/assets/latest/");
    let d = u64_decimal(feature_version as u64);
    append_chars(&mut v, d.as_slice());
    append_str(&mut v, "/hotspot?image_type=jdk&os=");
    let o = adoptium_os(os);
    append_str(&mut v, o.as_str());
    append_str(&mut v, "&architecture=");
    let a = adoptium_arch(arch);
    append_str(&mut v, a.as_str());
    string_of(v.as_slice())
}

/// The first build of the list, or the refusal of an empty list.
pub fn first_asset(assets: Vec<JavaAsset>) -> (r: Result<JavaAsset, JavaError>)
    ensures
        assets@.len() > 0 ==> r == Ok::<JavaAsset, JavaError>(assets@[0]),
        assets@.len() == 0 ==> (r matches Err(JavaError::UnrecognizedApiResponse(m)) && m@
            == "empty asset list"@),
{
    let mut assets = assets;
    if assets.len() == 0 {
        Err(JavaError::UnrecognizedApiResponse(string_lit("empty asset list")))
    } else {
        Ok(assets.remove(0))
    }
}

// ---------------------------------------------------------------------------
// Installing
// ---------------------------------------------------------------------------

/// Where a downloaded archive is kept: `<install_root>/downloads/<name>`.
pub fn archive_path(install_root: &str, package_name: &str) -> (r: String)
    ensures
        r@ == path_join(path_join(install_root@, "downloads"@), package_name@),
{
    let d = join_path(install_root, "downloads");
    join_path(d.as_str(), package_name)
}

/// Where a major version is installed: `<install_root>/<major>`.
pub fn version_dir(install_root: &str, major_version: u32) -> (r: String)
    ensures
        r@ == path_join(install_root@, decimal(major_version as nat)),
{
    let d = u64_decimal(major_version as u64);
    let d = string_of(d.as_slice());
    join_path(install_root, d.as_str())
}

/// The name of the Java executable: `java` followed by the platform's
/// executable suffix.
pub fn java_exe_name(exe_suffix: &str) -> (r: String)
    ensures
        r@ == "java"@ + exe_suffix@,
{
    let mut v = chars_of("java");
    append_str(&mut v, exe_suffix);
    string_of(v.as_slice())
}

/// Whether a file found while walking an extracted archive is the Java
/// executable: its name is `exe_name` and its folder is named `bin`.
pub fn is_java_binary(file_name: Option<&str>, parent_name: Option<&str>, exe_name: &str) -> (r: bool)
    ensures
        r == (match (file_name, parent_name) {
            (Some(f), Some(p)) => f@ == exe_name@ && p@ == "bin"@,
            _ => false,
        }),
{
    match (file_name, parent_name) {
        (Some(f), Some(p)) => str_equals(f, exe_name) && str_equals(p, "bin"),
        _ => false,
    }
}

/// The runtime that installing `major_version` from a build produced.
pub fn installed_java(binary_path: String, major_version: u32, asset_vendor: &str) -> (r: DetectedJava)
    ensures
        r.path == binary_path,
        r.major_version == major_version,
        r.vendor@ == display_vendor_of(asset_vendor@),
{
    DetectedJava { path: binary_path, major_version, vendor: display_vendor(asset_vendor) }
}

// ---------------------------------------------------------------------------
// Vendors
// ---------------------------------------------------------------------------

/// A Microsoft build is recognised: for any `java -version` output that
/// parses, whose second line names Microsoft and none of Temurin,
/// Corretto or Zulu, the vendor is "Microsoft Build of OpenJDK", with the
/// major version of the first line.
pub proof fn lemma_microsoft_build_recognised(output: Seq<char>)
    requires
        java_version_of(output) is Some,
        lines(output).len() > 1,
        contains_chars(lines(output)[1], "Microsoft"@),
        !contains_chars(lines(output)[1], "Temurin"@),
        !contains_chars(lines(output)[1], "Corretto"@),
        !contains_chars(lines(output)[1], "Zulu"@),
    ensures
        java_version_of(output) == Some(
            (major_of(quoted(lines(output)[0])->0)->0, "Microsoft Build of OpenJDK"@),
        ),
{
}

} // verus!

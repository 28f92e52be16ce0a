//! The records the application keeps about Java installations, instances
//! and worlds, their textual encodings, and the settings rules: a blank
//! value clears a key, and an unset commit identity falls back to a
//! default.
use vstd::prelude::*;

use crate::text::{chars_of, str_equals, string_lit, string_of, trim, trim_chars};

verus! {

// ---------------------------------------------------------------------------
// Java installations
// ---------------------------------------------------------------------------

/// How a Java installation came to be known.
#[derive(Debug, Clone, Copy, PartialEq, Eq)]
pub enum JavaSource {
    /// Downloaded and installed by the application.
    Managed,
    /// Found by scanning the machine.
    Detected,
    /// Added by hand by the user.
    Manual,
}

/// The stored text of a source.
pub open spec fn source_name(s: JavaSource) -> Seq<char> {
    match s {
        JavaSource::Managed => "managed"@,
        JavaSource::Detected => "detected"@,
        JavaSource::Manual => "manual"@,
    }
}

/// The source a stored text names, if any.
pub open spec fn source_named(v: Seq<char>) -> Option<JavaSource> {
    if v == "managed"@ {
        Some(JavaSource::Managed)
    } else if v == "detected"@ {
        Some(JavaSource::Detected)
    } else if v == "manual"@ {
        Some(JavaSource::Manual)
    } else {
        None
    }
}

impl JavaSource {
    /// The stored text of the source.
    pub fn as_str(&self) -> (r: &'static str)
        ensures
            r@ == source_name(*self),
    {
        match self {
            JavaSource::Managed => "managed",
            JavaSource::Detected => "detected",
            JavaSource::Manual => "manual",
        }
    }

    /// The source that `value` names, if it names one.
    pub fn parse(value: &str) -> (r: Option<JavaSource>)
        ensures
            r == source_named(value@),
    {
        if str_equals(value, "managed") {
            Some(JavaSource::Managed)
        } else if str_equals(value, "detected") {
            Some(JavaSource::Detected)
        } else if str_equals(value, "manual") {
            Some(JavaSource::Manual)
        } else {
            None
        }
    }
}

/// Reading back the stored text of a source gives the source.
pub proof fn lemma_source_round_trip(s: JavaSource)
    ensures
        source_named(source_name(s)) == Some(s),
{
    reveal_strlit("managed");
    reveal_strlit("detected");
    reveal_strlit("manual");
    assert("detected"@.len() != "managed"@.len());
    assert("manual"@.len() != "managed"@.len());
    assert("manual"@.len() != "detected"@.len());
}

/// A recorded Java installation.
#[derive(Debug, Clone, PartialEq, Eq)]
pub struct JavaInstallation {
    pub id: i64,
    pub major_version: u32,
    pub vendor: String,
    pub path: String,
    pub source: JavaSource,
    pub is_default: bool,
    pub created_at: String,
}

/// What recording an installation needs; the rest is assigned by the
/// database.
#[derive(Debug, Clone, PartialEq, Eq)]
pub struct NewJavaInstallation {
    pub major_version: u32,
    pub vendor: String,
    pub path: String,
    pub source: JavaSource,
}

/// The recorded installations of `major`, in their recorded order: the
/// candidates to reuse before installing a new runtime.
pub fn installations_of_major(rows: Vec<JavaInstallation>, major: u32) -> (r: Vec<JavaInstallation>)
    ensures
        r@ == rows@.filter(|j: JavaInstallation| j.major_version == major),
{
    let ghost all = rows@;
    let n: usize = rows.len();
    let mut rest = rows;
    let mut r: Vec<JavaInstallation> = Vec::new();
    let mut k: usize = 0;
    while rest.len() > 0
        invariant
            k + rest@.len() == all.len(),
            all.len() == n,
            rest@ == all.skip(k as int),
            r@ == all.take(k as int).filter(|j: JavaInstallation| j.major_version == major),
        decreases rest@.len(),
    {
        let x = rest.remove(0);
        proof {
            reveal(Seq::filter);
            assert(all.take(k + 1).drop_last() == all.take(k as int));
            assert(all.take(k + 1).last() == x);
            assert(rest@ == all.skip(k + 1));
        }
        if x.major_version == major {
            r.push(x);
        }
        k = k + 1;
    }
    proof {
        assert(all.take(all.len() as int) == all);
    }
    r
}

/// Row `i` is the first recorded default: the one that making another
/// installation the default clears.
pub open spec fn is_first_default(rows: Seq<JavaInstallation>, i: int) -> bool {
    &&& 0 <= i < rows.len()
    &&& rows[i].is_default
    &&& forall|j: int| 0 <= j < i ==> !(#[trigger] rows[j]).is_default
}

/// Row `i` once installation `id` is made the default: that row is the
/// default, the first previous default is one no longer, and nothing else
/// changes.
pub open spec fn defaulted(rows: Seq<JavaInstallation>, id: i64, i: int) -> JavaInstallation {
    JavaInstallation {
        id: rows[i].id,
        major_version: rows[i].major_version,
        vendor: rows[i].vendor,
        path: rows[i].path,
        source: rows[i].source,
        is_default: rows[i].id == id || (rows[i].is_default && !is_first_default(rows, i)),
        created_at: rows[i].created_at,
    }
}

/// The installations once `id` is made the default, as one transaction
/// does it: `None` when no installation has that id (nothing changes);
/// otherwise the previous default cleared and `id` marked.
pub fn with_default(rows: Vec<JavaInstallation>, id: i64) -> (r: Option<Vec<JavaInstallation>>)
    ensures
        r is None <==> forall|i: int| 0 <= i < rows.len() ==> (#[trigger] rows@[i]).id != id,
        r matches Some(v) ==> v@.len() == rows@.len() && forall|i: int|
            0 <= i < rows.len() ==> #[trigger] v@[i] == defaulted(rows@, id, i),
{
    let ghost all = rows@;
    let mut found = false;
    let mut k: usize = 0;
    while k < rows.len()
        invariant
            k <= rows.len(),
            all == rows@,
            found == exists|i: int| 0 <= i < k && (#[trigger] all[i]).id == id,
        decreases rows.len() - k,
    {
        if rows[k].id == id {
            found = true;
        }
        k = k + 1;
    }
    if !found {
        return None;
    }
    let n: usize = rows.len();
    let mut rest = rows;
    let mut out: Vec<JavaInstallation> = Vec::new();
    let mut seen_default = false;
    let mut k: usize = 0;
    while rest.len() > 0
        invariant
            k + rest@.len() == all.len(),
            all.len() == n,
            rest@ == all.skip(k as int),
            out@.len() == k,
            forall|i: int| 0 <= i < k ==> #[trigger] out@[i] == defaulted(all, id, i),
            seen_default == exists|j: int| 0 <= j < k && (#[trigger] all[j]).is_default,
        decreases rest@.len(),
    {
        let mut x = rest.remove(0);
        proof {
            assert(x == all[k as int]);
            assert(rest@ == all.skip(k + 1));
            if !seen_default && x.is_default {
                assert(is_first_default(all, k as int));
            }
            if seen_default {
                let j = choose|j: int| 0 <= j < k && (#[trigger] all[j]).is_default;
                assert(!is_first_default(all, k as int));
            }
        }
        let first_default = x.is_default && !seen_default;
        if x.is_default {
            seen_default = true;
        }
        x.is_default = x.id == id || (x.is_default && !first_default);
        out.push(x);
        proof {
            assert(out@[k as int] == defaulted(all, id, k as int));
            assert forall|i: int| 0 <= i < k + 1 implies #[trigger] out@[i] == defaulted(all, id, i) by {
                if i < k {
                    assert(out@[i] == out@.drop_last()[i]);
                }
            }
        }
        k = k + 1;
    }
    Some(out)
}

/// With distinct ids and at most one default before, making a recorded
/// installation the default leaves exactly that one the default.
pub proof fn lemma_one_default(rows: Seq<JavaInstallation>, id: i64)
    requires
        forall|i: int, j: int| 0 <= i < j < rows.len() ==> (#[trigger] rows[i]).id != (#[trigger] rows[j]).id,
        forall|i: int, j: int|
            0 <= i < j < rows.len() ==> !((#[trigger] rows[i]).is_default && (#[trigger] rows[j]).is_default),
    ensures
        forall|i: int| 0 <= i < rows.len() ==> (#[trigger] defaulted(rows, id, i)).is_default == (rows[i].id == id),
{
    assert forall|i: int| 0 <= i < rows.len() implies (#[trigger] defaulted(rows, id, i)).is_default == (
    rows[i].id == id) by {
        if rows[i].is_default && rows[i].id != id {
            assert forall|j: int| 0 <= j < i implies !(#[trigger] rows[j]).is_default by {
                assert(!(rows[j].is_default && rows[i].is_default));
            }
            assert(is_first_default(rows, i));
        }
    }
}

// ---------------------------------------------------------------------------
// Instances
// ---------------------------------------------------------------------------

/// The mod loader of an instance; only Vanilla exists so far.
#[derive(Debug, Clone, Copy, PartialEq, Eq)]
pub enum InstanceLoader {
    Vanilla,
}

impl InstanceLoader {
    /// The stored text of the loader.
    pub fn as_str(&self) -> (r: &'static str)
        ensures
            r@ == "vanilla"@,
    {
        "vanilla"
    }
}

/// Where an instance's installation stands.
#[derive(Debug, Clone, Copy, PartialEq, Eq)]
pub enum InstanceStatus {
    Installing,
    Ready,
    Failed,
}

/// The stored text of a status.
pub open spec fn status_name(s: InstanceStatus) -> Seq<char> {
    match s {
        InstanceStatus::Installing => "installing"@,
        InstanceStatus::Ready => "ready"@,
        InstanceStatus::Failed => "failed"@,
    }
}

impl InstanceStatus {
    /// The stored text of the status.
    pub fn as_str(&self) -> (r: &'static str)
        ensures
            r@ == status_name(*self),
    {
        match self {
            InstanceStatus::Installing => "installing",
            InstanceStatus::Ready => "ready",
            InstanceStatus::Failed => "failed",
        }
    }
}

/// A recorded instance.
#[derive(Debug, Clone, PartialEq, Eq)]
pub struct InstanceRecord {
    pub id: i64,
    pub name: String,
    pub mc_version: String,
    pub loader: InstanceLoader,
    pub loader_version: Option<String>,
    pub java_installation_id: Option<i64>,
    pub jvm_args: Option<String>,
    pub status: InstanceStatus,
    pub created_at: String,
}

/// What starting to create an instance needs.
#[derive(Debug, Clone, PartialEq, Eq)]
pub struct NewInstance {
    pub name: String,
    pub mc_version: String,
}

// ---------------------------------------------------------------------------
// Settings
// ---------------------------------------------------------------------------

/// The settings key of the commit author's name.
pub const COMMIT_NAME_KEY: &'static str = "commit_name";

/// The settings key of the commit author's email.
pub const COMMIT_EMAIL_KEY: &'static str = "commit_email";

/// The author name used while none is set.
pub open spec fn default_commit_name() -> Seq<char> {
    "mcgit"@
}

/// The author email used while none is set.
pub open spec fn default_commit_email() -> Seq<char> {
    "mcgit@localhost"@
}

/// A change to the settings table.
#[derive(Debug, Clone, PartialEq, Eq)]
pub enum SettingChange {
    /// Insert the key, or update its value.
    Put { key: String, value: String },
    /// Remove the key (nothing happens if it is not set).
    Delete { key: String },
}

/// The settings table as a map from key to value.
pub type Settings = Map<Seq<char>, Seq<char>>;

/// The table after a change.
pub open spec fn apply_change(m: Settings, c: SettingChange) -> Settings {
    match c {
        SettingChange::Put { key, value } => m.insert(key@, value@),
        SettingChange::Delete { key } => m.remove(key@),
    }
}

/// What `set_or_clear` does to the table: a blank value (after trimming)
/// removes the key, any other value is stored trimmed.
pub open spec fn set_or_clear_effect(m: Settings, key: Seq<char>, value: Seq<char>) -> Settings {
    if trim(value).len() == 0 {
        m.remove(key)
    } else {
        m.insert(key, trim(value))
    }
}

/// The change that sets `key` to `value`, or clears `key` when `value` is
/// blank after trimming; a stored value is trimmed.
pub fn set_or_clear(key: &str, value: &str) -> (c: SettingChange)
    ensures
        c matches SettingChange::Put { key: k, value: v } ==> k@ == key@ && v@ == trim(value@)
            && trim(value@).len() > 0,
        c matches SettingChange::Delete { key: k } ==> k@ == key@ && trim(value@).len() == 0,
        forall|m: Settings| apply_change(m, c) == set_or_clear_effect(m, key@, value@),
{
    let v = chars_of(value);
    let t = trim_chars(v.as_slice());
    if t.len() == 0 {
        SettingChange::Delete { key: string_lit(key) }
    } else {
        SettingChange::Put { key: string_lit(key), value: string_of(t.as_slice()) }
    }
}

/// The identity to commit with: the configured name and email, each
/// falling back to its default while unset.
pub fn commit_identity(name: Option<String>, email: Option<String>) -> (r: (String, String))
    ensures
        r.0@ == (match name {
            Some(n) => n@,
            None => default_commit_name(),
        }),
        r.1@ == (match email {
            Some(e) => e@,
            None => default_commit_email(),
        }),
{
    let n = match name {
        Some(n) => n,
        None => string_lit("mcgit"),
    };
    let e = match email {
        Some(e) => e,
        None => string_lit("mcgit@localhost"),
    };
    (n, e)
}

/// The identity that the table yields.
pub open spec fn identity_in(m: Settings) -> (Seq<char>, Seq<char>) {
    (
        if m.dom().contains(COMMIT_NAME_KEY@) { m[COMMIT_NAME_KEY@] } else { default_commit_name() },
        if m.dom().contains(COMMIT_EMAIL_KEY@) { m[COMMIT_EMAIL_KEY@] } else { default_commit_email() },
    )
}

/// After `set_or_clear` of the name and then the email, the identity is
/// each trimmed value, or its default where that value was blank.
pub proof fn lemma_set_identity(m: Settings, name: Seq<char>, email: Seq<char>)
    ensures
        identity_in(
            set_or_clear_effect(set_or_clear_effect(m, COMMIT_NAME_KEY@, name), COMMIT_EMAIL_KEY@, email),
        ) == (
            if trim(name).len() == 0 { default_commit_name() } else { trim(name) },
            if trim(email).len() == 0 { default_commit_email() } else { trim(email) },
        ),
{
    reveal_strlit("commit_name");
    reveal_strlit("commit_email");
    assert(COMMIT_NAME_KEY@ != COMMIT_EMAIL_KEY@) by {
        assert(COMMIT_NAME_KEY@[7] != COMMIT_EMAIL_KEY@[7]);
    }
}

/// A value stored with `set_or_clear` reads back trimmed, and a blank one
/// reads back as unset; other keys keep their values.
pub proof fn lemma_set_or_clear_reads_back(m: Settings, key: Seq<char>, value: Seq<char>, other: Seq<char>)
    requires
        other != key,
    ensures
        set_or_clear_effect(m, key, value).dom().contains(key) <==> trim(value).len() > 0,
        trim(value).len() > 0 ==> set_or_clear_effect(m, key, value)[key] == trim(value),
        set_or_clear_effect(m, key, value).dom().contains(other) <==> m.dom().contains(other),
        m.dom().contains(other) ==> set_or_clear_effect(m, key, value)[other] == m[other],
{
}

} // verus!

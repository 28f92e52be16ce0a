//! Instance folders: where an instance and its worlds live on disk, which
//! directories an instance starts with, and which saves count as worlds.
use vstd::prelude::*;

use crate::text::{
    append_str, chars_of, i64_decimal, join_path, path_join, signed_decimal, sorted_distinct,
    string_of, strictly_sorted, strs_view,
};

verus! {

/// The record kept in an instance's `instance.json`, mirroring its
/// database row; `id` is the database id, also the folder's name.
#[derive(Debug, Clone, PartialEq, Eq)]
pub struct InstanceManifest {
    pub id: i64,
    pub name: String,
    pub mc_version: String,
    pub loader: String,
    pub loader_version: Option<String>,
    pub java_installation_path: Option<String>,
    pub created_at: String,
}

/// Why an instance operation failed.
#[derive(Debug, Clone, PartialEq, Eq)]
pub enum InstanceError {
    /// A filesystem operation failed (its message).
    Io(String),
    /// `instance.json` could not be written or read as a manifest.
    MalformedManifest(String),
}

/// The message of an instance error.
pub open spec fn instance_error_message(e: InstanceError) -> Seq<char> {
    match e {
        InstanceError::Io(m) => "filesystem error: "@ + m@,
        InstanceError::MalformedManifest(m) => "malformed instance.json: "@ + m@,
    }
}

impl InstanceError {
    /// The message of the error.
    pub fn message(&self) -> (s: String)
        ensures
            s@ == instance_error_message(*self),
    {
        let (mut v, m) = match self {
            InstanceError::Io(m) => (chars_of("filesystem error: "), m),
            InstanceError::MalformedManifest(m) => (chars_of("malformed instance.json: "), m),
        };
        append_str(&mut v, m.as_str());
        string_of(v.as_slice())
    }
}

/// A world found under an instance's `saves/` folder, by folder name.
#[derive(Debug, Clone, PartialEq, Eq)]
pub struct World {
    pub folder_name: String,
}

/// The folder names of worlds.
pub open spec fn world_names(w: Seq<World>) -> Seq<Seq<char>> {
    w.map_values(|x: World| x.folder_name@)
}

/// `<instances_dir>/<id>`.
pub open spec fn root_path(instances_dir: Seq<char>, id: int) -> Seq<char> {
    path_join(instances_dir, signed_decimal(id))
}

/// An instance's folder: `<instances_dir>/<id>`, named by its database id.
pub fn instance_root(instances_dir: &str, id: i64) -> (r: String)
    ensures
        r@ == root_path(instances_dir@, id as int),
{
    let name = i64_decimal(id);
    let name = string_of(name.as_slice());
    join_path(instances_dir, name.as_str())
}

/// The subdirectories of every instance's `minecraft/` folder.
pub open spec fn subdir_names() -> Seq<Seq<char>> {
    seq![
        "mods"@,
        "resourcepacks"@,
        "shaderpacks"@,
        "saves"@,
        "screenshots"@,
        "logs"@,
        "config"@,
    ]
}

/// The subdirectories of every instance's `minecraft/` folder, in order.
pub fn minecraft_subdirs() -> (r: Vec<String>)
    ensures
        strs_view(r@) == subdir_names(),
{
    let mut r: Vec<String> = Vec::new();
    r.push("mods".to_string());
    r.push("resourcepacks".to_string());
    r.push("shaderpacks".to_string());
    r.push("saves".to_string());
    r.push("screenshots".to_string());
    r.push("logs".to_string());
    r.push("config".to_string());
    assert(strs_view(r@) =~= subdir_names());
    r
}

/// `<root>/minecraft`.
pub open spec fn minecraft_path(root: Seq<char>) -> Seq<char> {
    path_join(root, "minecraft"@)
}

/// The directories that laying out instance `id` creates, one per entry
/// of `subdir_names`: `<instances_dir>/<id>/minecraft/<sub>`.
pub fn layout_dirs(instances_dir: &str, id: i64) -> (r: Vec<String>)
    ensures
        r@.len() == subdir_names().len(),
        forall|k: int|
            0 <= k < r@.len() ==> (#[trigger] r@[k])@ == path_join(
                minecraft_path(root_path(instances_dir@, id as int)),
                subdir_names()[k],
            ),
{
    let root = instance_root(instances_dir, id);
    let mc = join_path(root.as_str(), "minecraft");
    let subs = minecraft_subdirs();
    let mut r: Vec<String> = Vec::new();
    let mut k: usize = 0;
    while k < subs.len()
        invariant
            k <= subs.len(),
            strs_view(subs@) == subdir_names(),
            mc@ == minecraft_path(root_path(instances_dir@, id as int)),
            r@.len() == k,
            forall|j: int|
                0 <= j < k ==> (#[trigger] r@[j])@ == path_join(
                    minecraft_path(root_path(instances_dir@, id as int)),
                    subdir_names()[j],
                ),
        decreases subs.len() - k,
    {
        assert(subs@[k as int]@ == subdir_names()[k as int]);
        let d = join_path(mc.as_str(), subs[k].as_str());
        r.push(d);
        k = k + 1;
    }
    r
}

/// Where an instance keeps its manifest: `<root>/instance.json`.
pub fn manifest_path(root: &str) -> (r: String)
    ensures
        r@ == path_join(root@, "instance.json"@),
{
    join_path(root, "instance.json")
}

/// `<root>/minecraft/saves`.
pub open spec fn saves_path(root: Seq<char>) -> Seq<char> {
    path_join(minecraft_path(root), "saves"@)
}

/// An instance's saves folder: `<root>/minecraft/saves`.
pub fn saves_dir(root: &str) -> (r: String)
    ensures
        r@ == saves_path(root@),
{
    let mc = join_path(root, "minecraft");
    join_path(mc.as_str(), "saves")
}

/// A world's folder: `<instances_dir>/<id>/minecraft/saves/<folder>`.
pub fn world_dir(instances_dir: &str, id: i64, folder: &str) -> (r: String)
    ensures
        r@ == path_join(saves_path(root_path(instances_dir@, id as int)), folder@),
{
    let root = instance_root(instances_dir, id);
    let saves = saves_dir(root.as_str());
    join_path(saves.as_str(), folder)
}

/// The worlds among the saves: the given folder names (those that hold a
/// `level.dat`), each once, in ascending order of name.
pub fn sorted_worlds(folder_names: &Vec<String>) -> (r: Vec<World>)
    ensures
        strictly_sorted(world_names(r@)),
        forall|p: Seq<char>|
            world_names(r@).contains(p) <==> strs_view(folder_names@).contains(p),
{
    let names = sorted_distinct(folder_names);
    let mut r: Vec<World> = Vec::new();
    let mut k: usize = 0;
    while k < names.len()
        invariant
            k <= names.len(),
            r@.len() == k,
            forall|j: int| 0 <= j < k ==> (#[trigger] r@[j]).folder_name@ == names@[j]@,
        decreases names.len() - k,
    {
        r.push(World { folder_name: names[k].clone() });
        k = k + 1;
    }
    proof {
        assert(world_names(r@) =~= strs_view(names@));
    }
    r
}

} // verus!

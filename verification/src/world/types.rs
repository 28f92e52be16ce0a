//! The values the world module reports: chunk, block, entity and structure
//! differences, and its errors.
use vstd::prelude::*;

use crate::text::{append_str, chars_of, string_of};

verus! {

/// Why region or chunk data could not be read.
#[derive(Debug, Clone, PartialEq, Eq)]
pub enum WorldError {
    /// The region container could not be read (its message).
    Anvil(String),
    /// The chunk's NBT could not be parsed (its message).
    Nbt(String),
    /// The NBT parsed but does not have the shape a chunk has.
    Shape(String),
}

/// Whether a chunk was added, removed, or changed between two versions of a
/// region file.
#[derive(Debug, Clone, Copy, PartialEq, Eq, Structural)]
pub enum ChunkStatus {
    Added,
    Removed,
    Changed,
}

/// One chunk that differs between two versions of a region, addressed by
/// its absolute chunk coordinates in the world.
#[derive(Debug, Clone, Copy, PartialEq, Eq, Structural)]
pub struct ChunkDiff {
    pub chunk_x: i32,
    pub chunk_z: i32,
    pub status: ChunkStatus,
}

/// One block whose identity differs between two versions of a chunk, at
/// its absolute world position.
#[derive(Debug, Clone, PartialEq, Eq)]
pub struct BlockDiff {
    pub x: i32,
    pub y: i32,
    pub z: i32,
    pub from: String,
    pub to: String,
}

/// Whether something appeared in, or disappeared from, a chunk.
#[derive(Debug, Clone, Copy, PartialEq, Eq, Structural)]
pub enum Presence {
    Added,
    Removed,
}

/// One entity (by UUID) that appeared in or left a chunk.
#[derive(Debug, Clone, PartialEq, Eq)]
pub struct EntityDiff {
    pub id: String,
    pub uuid: String,
    pub presence: Presence,
}

/// One structure type that started or stopped being recorded as starting
/// in a chunk.
#[derive(Debug, Clone, PartialEq, Eq)]
pub struct StructureDiff {
    pub id: String,
    pub presence: Presence,
}

/// The message of a world error.
pub open spec fn world_error_message(e: WorldError) -> Seq<char> {
    match e {
        WorldError::Anvil(m) => "could not read region data: "@ + m@,
        WorldError::Nbt(m) => "could not parse chunk NBT: "@ + m@,
        WorldError::Shape(m) => "unexpected chunk data: "@ + m@,
    }
}

/// The message of a world error.
pub fn world_error_text(e: &WorldError) -> (s: String)
    ensures
        s@ == world_error_message(*e),
{
    let (mut v, m) = match e {
        WorldError::Anvil(m) => (chars_of("could not read region data: "), m),
        WorldError::Nbt(m) => (chars_of("could not parse chunk NBT: "), m),
        WorldError::Shape(m) => (chars_of("unexpected chunk data: "), m),
    };
    append_str(&mut v, m.as_str());
    string_of(v.as_slice())
}

} // verus!

//! Region files (Anvil `.mca`): their names, the chunks they hold, the
//! chunk slots that differ between two versions, and tallies over every
//! chunk of a region.
use vstd::prelude::*;

use fastanvil::Region;
use std::io::Cursor;

use crate::text::{
    chars_of, find_char, first_index_of, has_prefix, has_suffix, parse_i32, signed_value, sub_chars,
    starts_with_str, ends_with_str,
};
use crate::world::chunk::{
    chunk_block_names, chunk_entity_ids, chunk_structure_starts, count_chunk_blocks,
    count_chunk_entities, count_chunk_structures, parses_to,
};
use crate::world::counts::{counted, keys_distinct, lemma_counted_concat, lemma_counted_empty};
use crate::world::nbt::{nbt_accepts, Nbt};
use crate::world::types::{ChunkDiff, ChunkStatus, WorldError};

verus! {

// ---------------------------------------------------------------------------
// Region file names
// ---------------------------------------------------------------------------

/// The text between `r.` and `.mca` of a region file name.
pub open spec fn region_name_middle(f: Seq<char>) -> Option<Seq<char>> {
    if f.len() >= 6 && has_prefix(f, "r."@) && has_suffix(f, ".mca"@) {
        Some(f.subrange(2, f.len() - 4))
    } else {
        None
    }
}

/// The `i32` that `str::parse` reads from `s`.
pub open spec fn i32_of(s: Seq<char>) -> Option<int> {
    match signed_value(s) {
        Some(v) => if i32::MIN <= v <= i32::MAX {
            Some(v)
        } else {
            None
        },
        None => None,
    }
}

/// The coordinates in a region file name `r.<x>.<z>.mca`: `<x>` ends at
/// the first `.` after `r.`.
pub open spec fn region_coords(f: Seq<char>) -> Option<(int, int)> {
    match region_name_middle(f) {
        None => None,
        Some(m) => match first_index_of(m, '.') {
            None => None,
            Some(i) => match (i32_of(m.take(i)), i32_of(m.skip(i + 1))) {
                (Some(x), Some(z)) => Some((x, z)),
                _ => None,
            },
        },
    }
}

/// Extracts `(region_x, region_z)` from a region file's name, e.g.
/// `"r.-1.0.mca"` gives `Some((-1, 0))`; `None` for anything that does not
/// match the `r.<x>.<z>.mca` pattern.
pub fn parse_region_coords(filename: &str) -> (r: Option<(i32, i32)>)
    ensures
        match r {
            Some((x, z)) => region_coords(filename@) == Some((x as int, z as int)),
            None => region_coords(filename@) is None,
        },
{
    let f = chars_of(filename);
    if f.len() < 6 || !starts_with_str(f.as_slice(), "r.") || !ends_with_str(f.as_slice(), ".mca") {
        return None;
    }
    let m = sub_chars(f.as_slice(), 2, f.len() - 4);
    let i = match find_char(m.as_slice(), '.') {
        Some(i) => i,
        None => {
            return None;
        },
    };
    proof {
        crate::text::lemma_first_index_of(m@, '.');
    }
    let xs = sub_chars(m.as_slice(), 0, i);
    let zs = sub_chars(m.as_slice(), i + 1, m.len());
    assert(xs@ == m@.take(i as int));
    assert(zs@ == m@.skip(i + 1));
    let x = match parse_i32(xs.as_slice()) {
        Some(x) => x,
        None => {
            return None;
        },
    };
    let z = match parse_i32(zs.as_slice()) {
        Some(z) => z,
        None => {
            return None;
        },
    };
    Some((x, z))
}

// ---------------------------------------------------------------------------
// Reading chunks out of region bytes
// ---------------------------------------------------------------------------

/// `fastanvil::Region`, declared to be carried through the wrappers.
#[verifier::external_type_specification]
#[verifier::external_body]
#[verifier::reject_recursive_types(S)]
pub struct ExRegion<S>(Region<S>);

/// `std::io::Cursor`, the stream a region is read from.
#[verifier::external_type_specification]
#[verifier::external_body]
#[verifier::reject_recursive_types(T)]
pub struct ExCursor<T>(Cursor<T>);

/// `fastanvil::Error`, the error of reading a region.
#[verifier::external_type_specification]
#[verifier::external_body]
pub struct ExAnvilError(fastanvil::Error);

/// The bytes a region reads its chunks from.
pub uninterp spec fn region_bytes(r: Region<Cursor<Vec<u8>>>) -> Seq<u8>;

/// Whether `Region::from_stream` accepts a stream of these bytes: it reads
/// the 4-byte header entry of each of the 1024 slots, the last ending at
/// byte 4096, and fails only when one of those reads does.
pub open spec fn anvil_opens(bytes: Seq<u8>) -> bool {
    bytes.len() >= 4096
}

/// What `Region::read_chunk(x, z)` gives on a region of these bytes:
/// `None` for an error, `Some(None)` for an empty slot, otherwise the
/// chunk's decompressed NBT.
pub uninterp spec fn anvil_slot(bytes: Seq<u8>, x: int, z: int) -> Option<Option<Seq<u8>>>;

/// Byte `i` of `b` as a number (0 past the end).
pub open spec fn byte_at(b: Seq<u8>, i: int) -> int {
    if 0 <= i < b.len() {
        b[i] as int
    } else {
        0
    }
}

/// The header offset (in 4 KiB sectors) of slot (`x`, `z`).
pub open spec fn slot_offset(b: Seq<u8>, x: int, z: int) -> int {
    let p = 4 * (x + 32 * z);
    byte_at(b, p) * 65536 + byte_at(b, p + 1) * 256 + byte_at(b, p + 2)
}

/// Whether the header marks slot (`x`, `z`) as holding no chunk.
pub open spec fn slot_empty(b: Seq<u8>, x: int, z: int) -> bool {
    let p = 4 * (x + 32 * z);
    p + 4 <= b.len() && slot_offset(b, x, z) == 0 && byte_at(b, p + 3) == 0
}

/// Whether slot (`x`, `z`) points at a chunk whose stored length is 0
/// with a known compression scheme: `fastanvil` subtracts one from that
/// length and overflows, so such a slot is never read.
pub open spec fn slot_zero_length(b: Seq<u8>, x: int, z: int) -> bool {
    let p = 4 * (x + 32 * z);
    let q = slot_offset(b, x, z) * 4096;
    &&& p + 4 <= b.len()
    &&& !slot_empty(b, x, z)
    &&& q + 5 <= b.len()
    &&& byte_at(b, q) == 0 && byte_at(b, q + 1) == 0 && byte_at(b, q + 2) == 0 && byte_at(b, q + 3) == 0
    &&& 1 <= byte_at(b, q + 4) <= 4
}

/// No slot of the region has a zero stored length.
pub open spec fn region_readable(b: Seq<u8>) -> bool {
    forall|x: int, z: int| 0 <= x < 32 && 0 <= z < 32 ==> !#[trigger] slot_zero_length(b, x, z)
}

/// `Region::from_stream` on a cursor over a copy of the bytes: succeeds
/// exactly when the bytes hold the whole 4096-byte header, and the region
/// reads from those bytes.
#[verifier::external_body]
fn open_region(bytes: &[u8]) -> (r: Result<Region<Cursor<Vec<u8>>>, fastanvil::Error>)
    ensures
        r is Ok <==> anvil_opens(bytes@),
        r matches Ok(reg) ==> region_bytes(reg) == bytes@,
{
    Region::from_stream(Cursor::new(bytes.to_vec()))
}

/// `Region::read_chunk(x, z)`: reads are absolute seeks into the same
/// bytes, so the region's bytes do not change; an empty header slot reads
/// as no chunk.
#[verifier::external_body]
fn read_region_chunk(reg: &mut Region<Cursor<Vec<u8>>>, x: usize, z: usize) -> (r: Result<
    Option<Vec<u8>>,
    fastanvil::Error,
>)
    requires
        x < 32,
        z < 32,
        !slot_zero_length(region_bytes(*old(reg)), x as int, z as int),
    ensures
        region_bytes(*final(reg)) == region_bytes(*old(reg)),
        r is Err <==> anvil_slot(region_bytes(*old(reg)), x as int, z as int) is None,
        r matches Ok(o) ==> anvil_slot(region_bytes(*old(reg)), x as int, z as int) == Some(
            match o {
                Some(v) => Some(v@),
                None => None::<Seq<u8>>,
            },
        ),
        slot_empty(region_bytes(*old(reg)), x as int, z as int) ==> r matches Ok(None),
{
    reg.read_chunk(x, z)
}

/// The message of a region error (its `Display` text).
#[verifier::external_body]
fn anvil_error_text(e: &fastanvil::Error) -> String {
    e.to_string()
}

fn anvil_error(e: &fastanvil::Error) -> (r: WorldError)
    ensures
        r is Anvil,
{
    WorldError::Anvil(anvil_error_text(e))
}

fn read_byte(b: &[u8], i: usize) -> (r: u64)
    ensures
        r as int == byte_at(b@, i as int),
{
    if i < b.len() {
        b[i] as u64
    } else {
        0
    }
}

/// Whether slot (`x`, `z`) has a zero stored length (see
/// `slot_zero_length`).
pub fn has_zero_length_slot(b: &[u8], x: usize, z: usize) -> (r: bool)
    requires
        x < 32,
        z < 32,
    ensures
        r == slot_zero_length(b@, x as int, z as int),
{
    let p: usize = 4 * (x + 32 * z);
    if p + 4 > b.len() {
        return false;
    }
    let off = read_byte(b, p) * 65536 + read_byte(b, p + 1) * 256 + read_byte(b, p + 2);
    if off == 0 && read_byte(b, p + 3) == 0 {
        return false;
    }
    let q: u64 = off * 4096;
    if q + 5 > b.len() as u64 {
        return false;
    }
    let qi = q as usize;
    let s = read_byte(b, qi + 4);
    read_byte(b, qi) == 0 && read_byte(b, qi + 1) == 0 && read_byte(b, qi + 2) == 0 && read_byte(
        b,
        qi + 3,
    ) == 0 && 1 <= s && s <= 4
}

/// Whether no slot of the region has a zero stored length, so that every
/// slot can be read.
pub fn region_is_readable(b: &[u8]) -> (r: bool)
    ensures
        r == region_readable(b@),
{
    let mut z: usize = 0;
    while z < 32
        invariant
            z <= 32,
            forall|x: int, zz: int| 0 <= x < 32 && 0 <= zz < z ==> !#[trigger] slot_zero_length(b@, x, zz),
        decreases 32 - z,
    {
        let mut x: usize = 0;
        while x < 32
            invariant
                x <= 32,
                z < 32,
                forall|xx: int, zz: int|
                    0 <= xx < 32 && 0 <= zz < z ==> !#[trigger] slot_zero_length(b@, xx, zz),
                forall|xx: int| 0 <= xx < x ==> !#[trigger] slot_zero_length(b@, xx, z as int),
            decreases 32 - x,
        {
            if has_zero_length_slot(b, x, z) {
                return false;
            }
            x = x + 1;
        }
        z = z + 1;
    }
    true
}

// ---------------------------------------------------------------------------
// Whole regions
// ---------------------------------------------------------------------------

/// The slot read `k`-th when walking a region, `z` outer and `x` inner.
pub open spec fn slot_xz(k: int) -> (int, int) {
    (k % 32, k / 32)
}

/// The chunks of the first `k` slots in walk order, or `None` if one of
/// them cannot be read.
pub open spec fn region_chunk_list(b: Seq<u8>, k: int) -> Option<Seq<Seq<u8>>>
    decreases k,
{
    if k <= 0 {
        Some(Seq::empty())
    } else {
        match (region_chunk_list(b, k - 1), anvil_slot(b, slot_xz(k - 1).0, slot_xz(k - 1).1)) {
            (Some(p), Some(Some(c))) => Some(p.push(c)),
            (Some(p), Some(None)) => Some(p),
            _ => None,
        }
    }
}

/// Every generated chunk's NBT in a region, in walk order (`z` outer, `x`
/// inner).
pub fn region_chunks(region_bytes_in: &[u8]) -> (r: Result<Vec<Vec<u8>>, WorldError>)
    requires
        region_readable(region_bytes_in@),
    ensures
        match r {
            Ok(v) => anvil_opens(region_bytes_in@) && region_chunk_list(region_bytes_in@, 1024) == Some(
                v@.map_values(|c: Vec<u8>| c@),
            ),
            Err(e) => e is Anvil && (!anvil_opens(region_bytes_in@) || region_chunk_list(
                region_bytes_in@,
                1024,
            ) is None),
        },
{
    let mut region = match open_region(region_bytes_in) {
        Ok(r) => r,
        Err(e) => {
            return Err(anvil_error(&e));
        },
    };
    let ghost b = region_bytes_in@;
    let mut out: Vec<Vec<u8>> = Vec::new();
    let mut k: usize = 0;
    while k < 1024
        invariant
            k <= 1024,
            region_bytes(region) == b,
            b == region_bytes_in@,
            region_readable(b),
            region_chunk_list(b, k as int) == Some(out@.map_values(|c: Vec<u8>| c@)),
        decreases 1024 - k,
    {
        let x = k % 32;
        let z = k / 32;
        assert(!slot_zero_length(b, x as int, z as int));
        let ghost before = out@;
        match read_region_chunk(&mut region, x, z) {
            Ok(Some(c)) => {
                out.push(c);
                proof {
                    assert(out@.map_values(|c: Vec<u8>| c@) == before.map_values(|c: Vec<u8>| c@).push(c@));
                }
            },
            Ok(None) => {},
            Err(e) => {
                proof {
                    assert(slot_xz(k as int) == (x as int, z as int));
                    assert(region_chunk_list(b, k as int + 1) is None);
                    lemma_chunk_list_prefix_none(b, k as int + 1);
                }
                return Err(anvil_error(&e));
            },
        }
        k = k + 1;
    }
    Ok(out)
}

proof fn lemma_chunk_list_prefix_none(b: Seq<u8>, k: int)
    requires
        0 <= k <= 1024,
        region_chunk_list(b, k) is None,
    ensures
        region_chunk_list(b, 1024) is None,
    decreases 1024 - k,
{
    if k < 1024 {
        lemma_chunk_list_prefix_none(b, k + 1);
    }
}

/// The status of a slot between two versions: `None` when it is absent
/// on both sides or holds the same bytes.
pub open spec fn slot_change(a: Option<Seq<u8>>, b: Option<Seq<u8>>) -> Option<ChunkStatus> {
    match (a, b) {
        (None, None) => None,
        (None, Some(_)) => Some(ChunkStatus::Added),
        (Some(_), None) => Some(ChunkStatus::Removed),
        (Some(x), Some(y)) => if x == y {
            None
        } else {
            Some(ChunkStatus::Changed)
        },
    }
}

/// One changed chunk: absolute chunk x, z and status.
pub type ChunkDiffV = (int, int, ChunkStatus);

/// The chunks that differ among the first `k` slots in walk order, or
/// `None` if a slot of either side cannot be read.
pub open spec fn region_changes(fb: Seq<u8>, tb: Seq<u8>, rx: int, rz: int, k: int) -> Option<Seq<ChunkDiffV>>
    decreases k,
{
    if k <= 0 {
        Some(Seq::empty())
    } else {
        let (x, z) = slot_xz(k - 1);
        match (region_changes(fb, tb, rx, rz, k - 1), anvil_slot(fb, x, z), anvil_slot(tb, x, z)) {
            (Some(p), Some(a), Some(b)) => match slot_change(a, b) {
                Some(st) => Some(p.push((rx * 32 + x, rz * 32 + z, st))),
                None => Some(p),
            },
            _ => None,
        }
    }
}

/// The view of a chunk difference.
pub open spec fn chunk_diff_view(d: ChunkDiff) -> ChunkDiffV {
    (d.chunk_x as int, d.chunk_z as int, d.status)
}

/// Region coordinates whose chunks have `i32` chunk coordinates.
pub open spec fn region_coord_ok(c: i32) -> bool {
    -67108864 <= c <= 67108863
}

proof fn lemma_changes_prefix_none(fb: Seq<u8>, tb: Seq<u8>, rx: int, rz: int, k: int)
    requires
        0 <= k <= 1024,
        region_changes(fb, tb, rx, rz, k) is None,
    ensures
        region_changes(fb, tb, rx, rz, 1024) is None,
    decreases 1024 - k,
{
    if k < 1024 {
        lemma_changes_prefix_none(fb, tb, rx, rz, k + 1);
    }
}

/// Compares the 32×32 chunk slots between two versions (raw bytes) of
/// the same region file, by byte equality of each chunk's NBT.
/// `region_x`/`region_z` turn each slot's local coordinates into the
/// chunk's absolute position in the world.
pub fn diff_region_chunks(from_bytes: &[u8], to_bytes: &[u8], region_x: i32, region_z: i32) -> (r: Result<
    Vec<ChunkDiff>,
    WorldError,
>)
    requires
        region_readable(from_bytes@),
        region_readable(to_bytes@),
        region_coord_ok(region_x),
        region_coord_ok(region_z),
    ensures
        match r {
            Ok(v) => anvil_opens(from_bytes@) && anvil_opens(to_bytes@) && region_changes(
                from_bytes@,
                to_bytes@,
                region_x as int,
                region_z as int,
                1024,
            ) == Some(v@.map_values(|d: ChunkDiff| chunk_diff_view(d))),
            Err(e) => e is Anvil && (!anvil_opens(from_bytes@) || !anvil_opens(to_bytes@)
                || region_changes(from_bytes@, to_bytes@, region_x as int, region_z as int, 1024) is None),
        },
{
    let mut from_region = match open_region(from_bytes) {
        Ok(r) => r,
        Err(e) => {
            return Err(anvil_error(&e));
        },
    };
    let mut to_region = match open_region(to_bytes) {
        Ok(r) => r,
        Err(e) => {
            return Err(anvil_error(&e));
        },
    };
    let ghost fb = from_bytes@;
    let ghost tb = to_bytes@;
    let mut out: Vec<ChunkDiff> = Vec::new();
    let mut k: usize = 0;
    while k < 1024
        invariant
            k <= 1024,
            region_bytes(from_region) == fb,
            region_bytes(to_region) == tb,
            fb == from_bytes@,
            tb == to_bytes@,
            region_readable(fb),
            region_readable(tb),
            region_coord_ok(region_x),
            region_coord_ok(region_z),
            region_changes(fb, tb, region_x as int, region_z as int, k as int) == Some(
                out@.map_values(|d: ChunkDiff| chunk_diff_view(d)),
            ),
        decreases 1024 - k,
    {
        let x = k % 32;
        let z = k / 32;
        assert(!slot_zero_length(fb, x as int, z as int));
        assert(!slot_zero_length(tb, x as int, z as int));
        let a = match read_region_chunk(&mut from_region, x, z) {
            Ok(a) => a,
            Err(e) => {
                proof {
                    assert(slot_xz(k as int) == (x as int, z as int));
                    assert(region_changes(fb, tb, region_x as int, region_z as int, k as int + 1) is None);
                    lemma_changes_prefix_none(fb, tb, region_x as int, region_z as int, k as int + 1);
                }
                return Err(anvil_error(&e));
            },
        };
        let b = match read_region_chunk(&mut to_region, x, z) {
            Ok(b) => b,
            Err(e) => {
                proof {
                    assert(slot_xz(k as int) == (x as int, z as int));
                    assert(region_changes(fb, tb, region_x as int, region_z as int, k as int + 1) is None);
                    lemma_changes_prefix_none(fb, tb, region_x as int, region_z as int, k as int + 1);
                }
                return Err(anvil_error(&e));
            },
        };
        let status = match (&a, &b) {
            (None, None) => None,
            (None, Some(_)) => Some(ChunkStatus::Added),
            (Some(_), None) => Some(ChunkStatus::Removed),
            (Some(p), Some(q)) => if crate::text::bytes_equal(p.as_slice(), q.as_slice()) {
                None
            } else {
                Some(ChunkStatus::Changed)
            },
        };
        if let Some(st) = status {
            let d = ChunkDiff {
                chunk_x: region_x * 32 + x as i32,
                chunk_z: region_z * 32 + z as i32,
                status: st,
            };
            let ghost before = out@;
            out.push(d);
            proof {
                assert(out@.map_values(|d: ChunkDiff| chunk_diff_view(d)) == before.map_values(
                    |d: ChunkDiff| chunk_diff_view(d),
                ).push(chunk_diff_view(d)));
            }
        }
        k = k + 1;
    }
    Ok(out)
}

/// `roots` are parses of the chunks, one each, in order.
pub open spec fn chunks_parse_to(chunks: Seq<Seq<u8>>, roots: Seq<Nbt>) -> bool {
    &&& roots.len() == chunks.len()
    &&& forall|i: int| 0 <= i < chunks.len() ==> parses_to(chunks[i], #[trigger] roots[i])
}

/// The names that each root contributes (by `of`), root after root;
/// `None` when one of them contributes none.
pub open spec fn names_of_roots(roots: Seq<Nbt>, of: spec_fn(Nbt) -> Option<Seq<Seq<char>>>) -> Option<
    Seq<Seq<char>>,
>
    decreases roots.len(),
{
    if roots.len() == 0 {
        Some(Seq::empty())
    } else {
        match (names_of_roots(roots.drop_last(), of), of(roots.last())) {
            (Some(a), Some(b)) => Some(a + b),
            _ => None,
        }
    }
}

/// What a chunk contributes to a tally of blocks: every block's bare name.
pub open spec fn block_tally() -> spec_fn(Nbt) -> Option<Seq<Seq<char>>> {
    |root: Nbt| match chunk_block_names(root) {
        Ok(s) => Some(s),
        Err(_) => None,
    }
}

/// What a chunk contributes to a tally of structures: the type of each
/// structure that starts in it.
pub open spec fn structure_tally() -> spec_fn(Nbt) -> Option<Seq<Seq<char>>> {
    |root: Nbt| chunk_structure_starts(root)
}

/// What a chunk contributes to a tally of entities: each entity's `id`.
pub open spec fn entity_tally() -> spec_fn(Nbt) -> Option<Seq<Seq<char>>> {
    |root: Nbt| chunk_entity_ids(root)
}

/// Some parse of each chunk contributes names (by `of`) whose counts are
/// `c`.
pub open spec fn tallied_from(l: Seq<Seq<u8>>, c: Seq<(String, u64)>, of: spec_fn(Nbt) -> Option<Seq<Seq<char>>>) -> bool {
    exists|roots: Seq<Nbt>|
        #[trigger] chunks_parse_to(l, roots) && names_of_roots(roots, of) is Some && counted(
            Seq::empty(),
            c,
            names_of_roots(roots, of)->0,
        )
}

/// One of the chunks is not NBT.
pub open spec fn some_not_nbt(l: Seq<Seq<u8>>) -> bool {
    exists|i: int| 0 <= i < l.len() && !nbt_accepts(#[trigger] l[i])
}

/// Some parse of one of the chunks contributes no names (by `of`).
pub open spec fn some_untallied(l: Seq<Seq<u8>>, of: spec_fn(Nbt) -> Option<Seq<Seq<char>>>) -> bool {
    exists|i: int, root: Nbt| 0 <= i < l.len() && #[trigger] parses_to(l[i], root) && of(root) is None
}

/// What a tally of a whole region promises: on success, the counts of
/// the names that some parse of each of its chunks contributes; an NBT
/// error means a chunk is not NBT, and a shape error that some parse of a
/// chunk contributes nothing; a region error means the file or one of its
/// slots cannot be read.
pub open spec fn region_tally_is(
    b: Seq<u8>,
    r: Result<Vec<(String, u64)>, WorldError>,
    of: spec_fn(Nbt) -> Option<Seq<Seq<char>>>,
) -> bool {
    &&& !anvil_opens(b) ==> (r is Err && r->Err_0 is Anvil)
    &&& anvil_opens(b) ==> ((r is Err && r->Err_0 is Anvil) <==> region_chunk_list(b, 1024) is None)
    &&& r is Ok ==> (region_chunk_list(b, 1024) is Some && tallied_from(
        region_chunk_list(b, 1024)->0,
        r->Ok_0@,
        of,
    ))
    &&& (r is Err && r->Err_0 is Nbt) ==> (region_chunk_list(b, 1024) is Some && some_not_nbt(
        region_chunk_list(b, 1024)->0,
    ))
    &&& (r is Err && r->Err_0 is Shape) ==> (region_chunk_list(b, 1024) is Some && some_untallied(
        region_chunk_list(b, 1024)->0,
        of,
    ))
    &&& anvil_opens(b) && region_chunk_list(b, 1024) == Some(Seq::<Seq<u8>>::empty()) ==> (r is Ok
        && r->Ok_0@.len() == 0)
}

/// Tallies every block (by bare name) across every generated chunk of a
/// region file: a single snapshot's totals.
pub fn count_region_blocks(region_bytes_in: &[u8]) -> (r: Result<Vec<(String, u64)>, WorldError>)
    requires
        region_readable(region_bytes_in@),
    ensures
        region_tally_is(region_bytes_in@, r, block_tally()),
{
    let chunks = match region_chunks(region_bytes_in) {
        Ok(c) => c,
        Err(e) => {
            return Err(e);
        },
    };
    let ghost l = chunks@.map_values(|c: Vec<u8>| c@);
    let ghost mut roots: Seq<Nbt> = Seq::empty();
    let ghost mut names: Seq<Seq<char>> = Seq::empty();
    let mut counts: Vec<(String, u64)> = Vec::new();
    proof {
        lemma_counted_empty(counts@);
    }
    let mut i: usize = 0;
    while i < chunks.len()
        invariant
            i <= chunks.len(),
            l == chunks@.map_values(|c: Vec<u8>| c@),
            keys_distinct(counts@),
            anvil_opens(region_bytes_in@),
            region_chunk_list(region_bytes_in@, 1024) == Some(l),
            chunks_parse_to(l.take(i as int), roots),
            names_of_roots(roots, block_tally()) == Some(names),
            counted(Seq::empty(), counts@, names),
            i == 0 ==> counts@.len() == 0,
        decreases chunks.len() - i,
    {
        let ghost before = counts@;
        assert(chunks@[i as int]@ == l[i as int]);
        match count_chunk_blocks(chunks[i].as_slice(), &mut counts) {
            Ok(()) => {
                proof {
                    let root = choose|root: Nbt|
                        parses_to(l[i as int], root) && #[trigger] chunk_block_names(root) is Ok && counted(
                            before,
                            counts@,
                            chunk_block_names(root)->Ok_0,
                        );
                    let s = chunk_block_names(root)->Ok_0;
                    assert(block_tally()(root) == Some(s));
                    lemma_counted_concat(Seq::empty(), before, counts@, names, s);
                    assert(roots.push(root).drop_last() == roots);
                    roots = roots.push(root);
                    names = names + s;
                    assert forall|j: int| 0 <= j < i + 1 implies parses_to(
                        l.take(i + 1)[j],
                        #[trigger] roots[j],
                    ) by {
                        if j < i {
                            assert(l.take(i as int)[j] == l.take(i + 1)[j]);
                        }
                    }
                }
            },
            Err(e) => {
                proof {
                    assert(l.len() == chunks.len());
                    assert(!(e is Anvil));
                    if e is Shape {
                        let root = choose|root: Nbt|
                            parses_to(l[i as int], root) && #[trigger] chunk_block_names(root) is Err;
                        assert(block_tally()(root) is None);
                        assert(some_untallied(l, block_tally()));
                        assert(parses_to(l[i as int], root));
                    }
                    if e is Nbt {
                        assert(!nbt_accepts(l[i as int]));
                        assert(some_not_nbt(l));
                    }
                }
                return Err(e);
            },
        }
        i = i + 1;
    }
    proof {
        assert(l.take(chunks.len() as int) == l);
        assert(chunks_parse_to(l, roots));
        assert(names_of_roots(roots, block_tally()) is Some);
        assert(counted(Seq::empty(), counts@, names_of_roots(roots, block_tally())->0));
        assert(tallied_from(l, counts@, block_tally()));
    }
    Ok(counts)
}

/// Tallies the structures that start in every generated chunk of a
/// `region/` file, by type.
pub fn count_region_structures(region_bytes_in: &[u8]) -> (r: Result<Vec<(String, u64)>, WorldError>)
    requires
        region_readable(region_bytes_in@),
    ensures
        region_tally_is(region_bytes_in@, r, structure_tally()),
{
    let chunks = match region_chunks(region_bytes_in) {
        Ok(c) => c,
        Err(e) => {
            return Err(e);
        },
    };
    let ghost l = chunks@.map_values(|c: Vec<u8>| c@);
    let ghost mut roots: Seq<Nbt> = Seq::empty();
    let ghost mut names: Seq<Seq<char>> = Seq::empty();
    let mut counts: Vec<(String, u64)> = Vec::new();
    proof {
        lemma_counted_empty(counts@);
    }
    let mut i: usize = 0;
    while i < chunks.len()
        invariant
            i <= chunks.len(),
            l == chunks@.map_values(|c: Vec<u8>| c@),
            keys_distinct(counts@),
            anvil_opens(region_bytes_in@),
            region_chunk_list(region_bytes_in@, 1024) == Some(l),
            chunks_parse_to(l.take(i as int), roots),
            names_of_roots(roots, structure_tally()) == Some(names),
            counted(Seq::empty(), counts@, names),
            i == 0 ==> counts@.len() == 0,
        decreases chunks.len() - i,
    {
        let ghost before = counts@;
        assert(chunks@[i as int]@ == l[i as int]);
        match count_chunk_structures(chunks[i].as_slice(), &mut counts) {
            Ok(()) => {
                proof {
                    let root = choose|root: Nbt|
                        parses_to(l[i as int], root) && #[trigger] chunk_structure_starts(root) is Some && counted(
                            before,
                            counts@,
                            chunk_structure_starts(root)->0,
                        );
                    let s = chunk_structure_starts(root)->0;
                    assert(structure_tally()(root) == Some(s));
                    lemma_counted_concat(Seq::empty(), before, counts@, names, s);
                    assert(roots.push(root).drop_last() == roots);
                    roots = roots.push(root);
                    names = names + s;
                    assert forall|j: int| 0 <= j < i + 1 implies parses_to(
                        l.take(i + 1)[j],
                        #[trigger] roots[j],
                    ) by {
                        if j < i {
                            assert(l.take(i as int)[j] == l.take(i + 1)[j]);
                        }
                    }
                }
            },
            Err(e) => {
                proof {
                    assert(l.len() == chunks.len());
                    assert(!(e is Anvil));
                    if e is Shape {
                        let root = choose|root: Nbt|
                            parses_to(l[i as int], root) && #[trigger] chunk_structure_starts(root) is None;
                        assert(structure_tally()(root) is None);
                        assert(some_untallied(l, structure_tally()));
                        assert(parses_to(l[i as int], root));
                    }
                    if e is Nbt {
                        assert(!nbt_accepts(l[i as int]));
                        assert(some_not_nbt(l));
                    }
                }
                return Err(e);
            },
        }
        i = i + 1;
    }
    proof {
        assert(l.take(chunks.len() as int) == l);
        assert(chunks_parse_to(l, roots));
        assert(names_of_roots(roots, structure_tally()) is Some);
        assert(counted(Seq::empty(), counts@, names_of_roots(roots, structure_tally())->0));
        assert(tallied_from(l, counts@, structure_tally()));
    }
    Ok(counts)
}

/// Tallies the entities of every generated chunk of an `entities/` file,
/// by `id`.
pub fn count_region_entities(region_bytes_in: &[u8]) -> (r: Result<Vec<(String, u64)>, WorldError>)
    requires
        region_readable(region_bytes_in@),
    ensures
        region_tally_is(region_bytes_in@, r, entity_tally()),
{
    let chunks = match region_chunks(region_bytes_in) {
        Ok(c) => c,
        Err(e) => {
            return Err(e);
        },
    };
    let ghost l = chunks@.map_values(|c: Vec<u8>| c@);
    let ghost mut roots: Seq<Nbt> = Seq::empty();
    let ghost mut names: Seq<Seq<char>> = Seq::empty();
    let mut counts: Vec<(String, u64)> = Vec::new();
    proof {
        lemma_counted_empty(counts@);
    }
    let mut i: usize = 0;
    while i < chunks.len()
        invariant
            i <= chunks.len(),
            l == chunks@.map_values(|c: Vec<u8>| c@),
            keys_distinct(counts@),
            anvil_opens(region_bytes_in@),
            region_chunk_list(region_bytes_in@, 1024) == Some(l),
            chunks_parse_to(l.take(i as int), roots),
            names_of_roots(roots, entity_tally()) == Some(names),
            counted(Seq::empty(), counts@, names),
            i == 0 ==> counts@.len() == 0,
        decreases chunks.len() - i,
    {
        let ghost before = counts@;
        assert(chunks@[i as int]@ == l[i as int]);
        match count_chunk_entities(chunks[i].as_slice(), &mut counts) {
            Ok(()) => {
                proof {
                    let root = choose|root: Nbt|
                        parses_to(l[i as int], root) && #[trigger] chunk_entity_ids(root) is Some && counted(
                            before,
                            counts@,
                            chunk_entity_ids(root)->0,
                        );
                    let s = chunk_entity_ids(root)->0;
                    assert(entity_tally()(root) == Some(s));
                    lemma_counted_concat(Seq::empty(), before, counts@, names, s);
                    assert(roots.push(root).drop_last() == roots);
                    roots = roots.push(root);
                    names = names + s;
                    assert forall|j: int| 0 <= j < i + 1 implies parses_to(
                        l.take(i + 1)[j],
                        #[trigger] roots[j],
                    ) by {
                        if j < i {
                            assert(l.take(i as int)[j] == l.take(i + 1)[j]);
                        }
                    }
                }
            },
            Err(e) => {
                proof {
                    assert(l.len() == chunks.len());
                    assert(!(e is Anvil));
                    if e is Shape {
                        let root = choose|root: Nbt|
                            parses_to(l[i as int], root) && #[trigger] chunk_entity_ids(root) is None;
                        assert(entity_tally()(root) is None);
                        assert(some_untallied(l, entity_tally()));
                        assert(parses_to(l[i as int], root));
                    }
                    if e is Nbt {
                        assert(!nbt_accepts(l[i as int]));
                        assert(some_not_nbt(l));
                    }
                }
                return Err(e);
            },
        }
        i = i + 1;
    }
    proof {
        assert(l.take(chunks.len() as int) == l);
        assert(chunks_parse_to(l, roots));
        assert(names_of_roots(roots, entity_tally()) is Some);
        assert(counted(Seq::empty(), counts@, names_of_roots(roots, entity_tally())->0));
        assert(tallied_from(l, counts@, entity_tally()));
    }
    Ok(counts)
}

/// The NBT of the chunk in slot (`local_x`, `local_z`) of a region, if
/// that slot holds one.
pub fn region_chunk(region_bytes_in: &[u8], local_x: usize, local_z: usize) -> (r: Result<
    Option<Vec<u8>>,
    WorldError,
>)
    requires
        local_x < 32,
        local_z < 32,
        !slot_zero_length(region_bytes_in@, local_x as int, local_z as int),
    ensures
        match r {
            Ok(o) => anvil_opens(region_bytes_in@) && anvil_slot(
                region_bytes_in@,
                local_x as int,
                local_z as int,
            ) == Some(
                match o {
                    Some(v) => Some(v@),
                    None => None::<Seq<u8>>,
                },
            ),
            Err(e) => e is Anvil && (!anvil_opens(region_bytes_in@) || anvil_slot(
                region_bytes_in@,
                local_x as int,
                local_z as int,
            ) is None),
        },
{
    let mut region = match open_region(region_bytes_in) {
        Ok(r) => r,
        Err(e) => {
            return Err(anvil_error(&e));
        },
    };
    match read_region_chunk(&mut region, local_x, local_z) {
        Ok(o) => Ok(o),
        Err(e) => Err(anvil_error(&e)),
    }
}

/// The local coordinates of every slot that holds a chunk, in walk order
/// (`z` outer, `x` inner).
pub open spec fn generated_slots(b: Seq<u8>, k: int) -> Option<Seq<(int, int)>>
    decreases k,
{
    if k <= 0 {
        Some(Seq::empty())
    } else {
        match (generated_slots(b, k - 1), anvil_slot(b, slot_xz(k - 1).0, slot_xz(k - 1).1)) {
            (Some(p), Some(Some(_))) => Some(p.push(slot_xz(k - 1))),
            (Some(p), Some(None)) => Some(p),
            _ => None,
        }
    }
}

proof fn lemma_slots_prefix_none(b: Seq<u8>, k: int)
    requires
        0 <= k <= 1024,
        generated_slots(b, k) is None,
    ensures
        generated_slots(b, 1024) is None,
    decreases 1024 - k,
{
    if k < 1024 {
        lemma_slots_prefix_none(b, k + 1);
    }
}

/// Which of the 1024 slots of a region hold a generated chunk.
pub fn list_generated_chunks(region_bytes_in: &[u8]) -> (r: Result<Vec<(usize, usize)>, WorldError>)
    requires
        region_readable(region_bytes_in@),
    ensures
        match r {
            Ok(v) => anvil_opens(region_bytes_in@) && generated_slots(region_bytes_in@, 1024) == Some(
                v@.map_values(|p: (usize, usize)| (p.0 as int, p.1 as int)),
            ),
            Err(e) => e is Anvil && (!anvil_opens(region_bytes_in@) || generated_slots(
                region_bytes_in@,
                1024,
            ) is None),
        },
{
    let mut region = match open_region(region_bytes_in) {
        Ok(r) => r,
        Err(e) => {
            return Err(anvil_error(&e));
        },
    };
    let ghost b = region_bytes_in@;
    let mut out: Vec<(usize, usize)> = Vec::new();
    let mut k: usize = 0;
    while k < 1024
        invariant
            k <= 1024,
            region_bytes(region) == b,
            b == region_bytes_in@,
            region_readable(b),
            generated_slots(b, k as int) == Some(
                out@.map_values(|p: (usize, usize)| (p.0 as int, p.1 as int)),
            ),
        decreases 1024 - k,
    {
        let x = k % 32;
        let z = k / 32;
        assert(!slot_zero_length(b, x as int, z as int));
        assert(slot_xz(k as int) == (x as int, z as int));
        let ghost before = out@;
        match read_region_chunk(&mut region, x, z) {
            Ok(Some(_)) => {
                out.push((x, z));
                proof {
                    assert(out@.map_values(|p: (usize, usize)| (p.0 as int, p.1 as int))
                        == before.map_values(|p: (usize, usize)| (p.0 as int, p.1 as int)).push(
                        (x as int, z as int),
                    ));
                }
            },
            Ok(None) => {},
            Err(e) => {
                proof {
                    lemma_slots_prefix_none(b, k as int + 1);
                }
                return Err(anvil_error(&e));
            },
        }
        k = k + 1;
    }
    Ok(out)
}

} // verus!

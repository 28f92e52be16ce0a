//! Hand edits of a chunk for manual testing: reading the command-line
//! arguments that name a chunk and a block, summarising a chunk's sections,
//! bumping its inhabited time, and rewriting one block to a type that its
//! section's palette already holds.
use vstd::prelude::*;

use crate::text::{
    append_str, chars_of, i64_decimal, parse_i32, parse_u64, signed_decimal, signed_value,
    str_equals, string_lit, string_of, unsigned_value,
};
use crate::world::chunk::{bits_per_block, block_name, entry_name, packed_entry, packed_write, set_packed_index};
use crate::world::nbt::{get, lookup, Nbt, NbtEntry};

verus! {

// ---------------------------------------------------------------------------
// Arguments
// ---------------------------------------------------------------------------

/// The `usize` an argument reads as (as `str::parse` reads it), if any.
pub open spec fn usize_arg(s: Seq<char>) -> Option<int> {
    match unsigned_value(s) {
        Some(v) => if v <= usize::MAX {
            Some(v)
        } else {
            None
        },
        None => None,
    }
}

/// The `i8` an argument reads as, if any.
pub open spec fn i8_arg(s: Seq<char>) -> Option<int> {
    match signed_value(s) {
        Some(v) => if i8::MIN <= v <= i8::MAX {
            Some(v)
        } else {
            None
        },
        None => None,
    }
}

/// Reads a `usize` argument.
fn read_usize(s: &str) -> (r: Option<usize>)
    ensures
        match r {
            Some(v) => usize_arg(s@) == Some(v as int),
            None => usize_arg(s@) is None,
        },
{
    let cs = chars_of(s);
    match parse_u64(cs.as_slice()) {
        Some(v) => if v <= usize::MAX as u64 {
            Some(v as usize)
        } else {
            None
        },
        None => None,
    }
}

/// Reads an `i8` argument.
fn read_i8(s: &str) -> (r: Option<i8>)
    ensures
        match r {
            Some(v) => i8_arg(s@) == Some(v as int),
            None => i8_arg(s@) is None,
        },
{
    let cs = chars_of(s);
    match parse_i32(cs.as_slice()) {
        Some(v) => if -128 <= v && v <= 127 {
            Some(v as i8)
        } else {
            None
        },
        None => None,
    }
}

/// The region file and chunk coordinates that the first three arguments
/// name, or the complaint about the first one missing or unreadable.
pub open spec fn chunk_args(a: Seq<Seq<char>>) -> Result<(Seq<char>, int, int), Seq<char>> {
    if a.len() < 1 {
        Err("faltou <arquivo.mca>"@)
    } else if a.len() < 2 {
        Err("faltou <chunk_x>"@)
    } else if usize_arg(a[1]) is None {
        Err("chunk_x inválido (0-31)"@)
    } else if a.len() < 3 {
        Err("faltou <chunk_z>"@)
    } else if usize_arg(a[2]) is None {
        Err("chunk_z inválido (0-31)"@)
    } else {
        Ok((a[0], usize_arg(a[1])->0, usize_arg(a[2])->0))
    }
}

/// The views of the arguments.
pub open spec fn args_view(a: Seq<String>) -> Seq<Seq<char>> {
    a.map_values(|s: String| s@)
}

/// The region file and chunk coordinates named by the arguments.
pub fn parse_chunk_args(args: &Vec<String>) -> (r: Result<(String, usize, usize), String>)
    ensures
        match r {
            Ok((p, x, z)) => chunk_args(args_view(args@)) == Ok::<(Seq<char>, int, int), Seq<char>>(
                (p@, x as int, z as int),
            ),
            Err(m) => chunk_args(args_view(args@)) == Err::<(Seq<char>, int, int), Seq<char>>(m@),
        },
{
    if args.len() < 1 {
        return Err(string_lit("faltou <arquivo.mca>"));
    }
    let path = args[0].clone();
    if args.len() < 2 {
        return Err(string_lit("faltou <chunk_x>"));
    }
    assert(args_view(args@)[1] == args@[1]@);
    let x = match read_usize(args[1].as_str()) {
        Some(x) => x,
        None => {
            return Err(string_lit("chunk_x inválido (0-31)"));
        },
    };
    if args.len() < 3 {
        return Err(string_lit("faltou <chunk_z>"));
    }
    assert(args_view(args@)[2] == args@[2]@);
    let z = match read_usize(args[2].as_str()) {
        Some(z) => z,
        None => {
            return Err(string_lit("chunk_z inválido (0-31)"));
        },
    };
    assert(args_view(args@)[0] == args@[0]@);
    Ok((path, x, z))
}

/// What the `set-block` command is asked to do.
#[derive(Debug, Clone, PartialEq, Eq)]
pub struct SetBlockArgs {
    pub path: String,
    pub chunk_x: usize,
    pub chunk_z: usize,
    pub section_y: i8,
    pub local_x: usize,
    pub local_y: usize,
    pub local_z: usize,
    pub target: String,
}

/// The complaint about the first of arguments 3 to 7 of `set-block` that
/// is missing or unreadable, if any.
pub open spec fn set_block_args_error(a: Seq<Seq<char>>) -> Option<Seq<char>> {
    if a.len() < 4 {
        Some("faltou <section_y>"@)
    } else if i8_arg(a[3]) is None {
        Some("section_y inválido"@)
    } else if a.len() < 5 {
        Some("faltou <local_x>"@)
    } else if usize_arg(a[4]) is None {
        Some("local_x inválido (0-15)"@)
    } else if a.len() < 6 {
        Some("faltou <local_y>"@)
    } else if usize_arg(a[5]) is None {
        Some("local_y inválido (0-15)"@)
    } else if a.len() < 7 {
        Some("faltou <local_z>"@)
    } else if usize_arg(a[6]) is None {
        Some("local_z inválido (0-15)"@)
    } else if a.len() < 8 {
        Some("faltou <bloco> (ex.: minecraft:air)"@)
    } else {
        None
    }
}

/// Reads the arguments of `set-block`: the chunk, then the section's `Y`,
/// the block's position inside the section and the block type to write.
pub fn parse_set_block_args(args: &Vec<String>) -> (r: Result<SetBlockArgs, String>)
    ensures
        match r {
            Ok(s) => {
                let a = args_view(args@);
                &&& chunk_args(a) == Ok::<(Seq<char>, int, int), Seq<char>>(
                    (s.path@, s.chunk_x as int, s.chunk_z as int),
                )
                &&& set_block_args_error(a) is None
                &&& i8_arg(a[3]) == Some(s.section_y as int)
                &&& usize_arg(a[4]) == Some(s.local_x as int)
                &&& usize_arg(a[5]) == Some(s.local_y as int)
                &&& usize_arg(a[6]) == Some(s.local_z as int)
                &&& s.target@ == a[7]
            },
            Err(m) => match chunk_args(args_view(args@)) {
                Err(e) => m@ == e,
                Ok(_) => set_block_args_error(args_view(args@)) == Some(m@),
            },
        },
{
    let (path, chunk_x, chunk_z) = match parse_chunk_args(args) {
        Ok(t) => t,
        Err(m) => {
            return Err(m);
        },
    };
    if args.len() < 4 {
        return Err(string_lit("faltou <section_y>"));
    }
    assert(args_view(args@)[3] == args@[3]@);
    let section_y = match read_i8(args[3].as_str()) {
        Some(v) => v,
        None => {
            return Err(string_lit("section_y inválido"));
        },
    };
    if args.len() < 5 {
        return Err(string_lit("faltou <local_x>"));
    }
    assert(args_view(args@)[4] == args@[4]@);
    let local_x = match read_usize(args[4].as_str()) {
        Some(v) => v,
        None => {
            return Err(string_lit("local_x inválido (0-15)"));
        },
    };
    if args.len() < 6 {
        return Err(string_lit("faltou <local_y>"));
    }
    assert(args_view(args@)[5] == args@[5]@);
    let local_y = match read_usize(args[5].as_str()) {
        Some(v) => v,
        None => {
            return Err(string_lit("local_y inválido (0-15)"));
        },
    };
    if args.len() < 7 {
        return Err(string_lit("faltou <local_z>"));
    }
    assert(args_view(args@)[6] == args@[6]@);
    let local_z = match read_usize(args[6].as_str()) {
        Some(v) => v,
        None => {
            return Err(string_lit("local_z inválido (0-15)"));
        },
    };
    if args.len() < 8 {
        return Err(string_lit("faltou <bloco> (ex.: minecraft:air)"));
    }
    assert(args_view(args@)[7] == args@[7]@);
    let target = args[7].clone();
    Ok(SetBlockArgs { path, chunk_x, chunk_z, section_y, local_x, local_y, local_z, target })
}

// ---------------------------------------------------------------------------
// Inhabited time
// ---------------------------------------------------------------------------

/// The ticks a chunk has been inhabited, and that count after another
/// second (20 ticks) of play; or why the chunk has none.
pub open spec fn bumped_time(root: Nbt) -> Result<(i64, int), Seq<char>> {
    match root {
        Nbt::Compound(es) => match lookup(es@, "InhabitedTime"@) {
            Some(Nbt::Long(t)) => Ok((t, t + 20)),
            _ => Err(
                "campo InhabitedTime não encontrado na raiz do chunk (formato pode ser diferente do esperado)"@,
            ),
        },
        _ => Err("raiz do chunk não é um Compound"@),
    }
}

/// The chunk's inhabited time before and after adding one second of play
/// (20 ticks); the caller stores the second value back into the chunk.
pub fn bump_inhabited_time(root: &Nbt) -> (r: Result<(i64, i64), String>)
    requires
        bumped_time(*root) matches Ok((t, after)) ==> after <= i64::MAX,
    ensures
        match r {
            Ok((before, after)) => bumped_time(*root) == Ok::<(i64, int), Seq<char>>(
                (before, after as int),
            ),
            Err(m) => bumped_time(*root) == Err::<(i64, int), Seq<char>>(m@),
        },
{
    match root {
        Nbt::Compound(es) => match get(es, "InhabitedTime") {
            Some(Nbt::Long(t)) => Ok((*t, *t + 20)),
            _ => Err(
                string_lit(
                    "campo InhabitedTime não encontrado na raiz do chunk (formato pode ser diferente do esperado)",
                ),
            ),
        },
        _ => Err(string_lit("raiz do chunk não é um Compound")),
    }
}

// ---------------------------------------------------------------------------
// Section summaries
// ---------------------------------------------------------------------------

/// What a section holds: its `Y` when that is a byte, whether it has
/// `block_states`, the lengths of its palette and data (0 where missing or
/// of another type), and the names of its palette entries that have one.
#[derive(Debug, Clone, PartialEq, Eq)]
pub struct SectionSummary {
    pub y: Option<i8>,
    pub has_block_states: bool,
    pub palette_len: usize,
    pub data_len: usize,
    pub names: Vec<String>,
}

/// The `Y` of a section when it is a byte.
pub open spec fn byte_y(es: Seq<NbtEntry>) -> Option<i8> {
    match lookup(es, "Y"@) {
        Some(Nbt::Byte(y)) => Some(y),
        _ => None,
    }
}

/// The names that the palette entries carry, in order, skipping entries
/// without one.
pub open spec fn palette_names(pal: Seq<Nbt>) -> Seq<Seq<char>>
    decreases pal.len(),
{
    if pal.len() == 0 {
        Seq::empty()
    } else {
        let rest = palette_names(pal.drop_last());
        match entry_name(pal.last()) {
            Some(n) => rest.push(n),
            None => rest,
        }
    }
}

/// Whether `s` summarises the section with entries `es`.
pub open spec fn summarises(s: SectionSummary, es: Seq<NbtEntry>) -> bool {
    &&& s.y == byte_y(es)
    &&& match lookup(es, "block_states"@) {
        Some(Nbt::Compound(bs)) => {
            &&& s.has_block_states
            &&& s.palette_len as int == match lookup(bs@, "palette"@) {
                Some(Nbt::List(p)) => p@.len() as int,
                _ => 0,
            }
            &&& s.data_len as int == match lookup(bs@, "data"@) {
                Some(Nbt::LongArray(d)) => d@.len() as int,
                _ => 0,
            }
            &&& s.names@.map_values(|n: String| n@) == match lookup(bs@, "palette"@) {
                Some(Nbt::List(p)) => palette_names(p@),
                _ => Seq::empty(),
            }
        },
        _ => !s.has_block_states && s.palette_len == 0 && s.data_len == 0 && s.names@.len() == 0,
    }
}

/// The compound sections, in order (other elements are skipped).
pub open spec fn compound_sections(secs: Seq<Nbt>) -> Seq<Seq<NbtEntry>>
    decreases secs.len(),
{
    if secs.len() == 0 {
        Seq::empty()
    } else {
        let rest = compound_sections(secs.drop_last());
        match secs.last() {
            Nbt::Compound(es) => rest.push(es@),
            _ => rest,
        }
    }
}

/// The names of a palette's entries that have one.
fn names_of(pal: &Vec<Nbt>) -> (r: Vec<String>)
    ensures
        r@.map_values(|n: String| n@) == palette_names(pal@),
{
    let mut r: Vec<String> = Vec::new();
    let mut k: usize = 0;
    while k < pal.len()
        invariant
            k <= pal.len(),
            r@.map_values(|n: String| n@) == palette_names(pal@.take(k as int)),
        decreases pal.len() - k,
    {
        proof {
            assert(pal@.take(k + 1).drop_last() == pal@.take(k as int));
            assert(pal@.take(k + 1).last() == pal@[k as int]);
        }
        let ghost before = r@;
        match block_name(&pal[k]) {
            Ok(n) => {
                r.push(n);
                assert(r@.map_values(|n: String| n@) =~= before.map_values(|n: String| n@).push(
                    r@.last()@,
                ));
            },
            Err(_) => {},
        }
        k = k + 1;
    }
    assert(pal@.take(pal.len() as int) == pal@);
    r
}

/// The summary of one compound section.
fn summarise(es: &Vec<NbtEntry>) -> (s: SectionSummary)
    ensures
        summarises(s, es@),
{
    let y = match get(es, "Y") {
        Some(Nbt::Byte(y)) => Some(*y),
        _ => None,
    };
    match get(es, "block_states") {
        Some(Nbt::Compound(bs)) => {
            let (palette_len, names) = match get(bs, "palette") {
                Some(Nbt::List(p)) => (p.len(), names_of(p)),
                _ => {
                    let v: Vec<String> = Vec::new();
                    assert(v@.map_values(|n: String| n@) =~= Seq::<Seq<char>>::empty());
                    (0, v)
                },
            };
            let data_len = match get(bs, "data") {
                Some(Nbt::LongArray(d)) => d.len(),
                _ => 0,
            };
            SectionSummary { y, has_block_states: true, palette_len, data_len, names }
        },
        _ => SectionSummary {
            y,
            has_block_states: false,
            palette_len: 0,
            data_len: 0,
            names: Vec::new(),
        },
    }
}

/// A summary of each compound element of the chunk's `sections` list, in
/// order; `None` when the chunk has no such list.
pub fn section_summaries(root_entries: &Vec<NbtEntry>) -> (r: Option<Vec<SectionSummary>>)
    ensures
        match lookup(root_entries@, "sections"@) {
            Some(Nbt::List(secs)) => r matches Some(v) && v@.len() == compound_sections(secs@).len()
                && forall|k: int|
                0 <= k < v@.len() ==> summarises(#[trigger] v@[k], compound_sections(secs@)[k]),
            _ => r is None,
        },
{
    let secs = match get(root_entries, "sections") {
        Some(Nbt::List(secs)) => secs,
        _ => {
            return None;
        },
    };
    let mut out: Vec<SectionSummary> = Vec::new();
    let mut k: usize = 0;
    while k < secs.len()
        invariant
            k <= secs.len(),
            out@.len() == compound_sections(secs@.take(k as int)).len(),
            forall|j: int|
                0 <= j < out@.len() ==> summarises(
                    #[trigger] out@[j],
                    compound_sections(secs@.take(k as int))[j],
                ),
        decreases secs.len() - k,
    {
        proof {
            assert(secs@.take(k + 1).drop_last() == secs@.take(k as int));
            assert(secs@.take(k + 1).last() == secs@[k as int]);
        }
        match &secs[k] {
            Nbt::Compound(es) => {
                let s = summarise(es);
                out.push(s);
            },
            _ => {},
        }
        k = k + 1;
    }
    assert(secs@.take(secs.len() as int) == secs@);
    Some(out)
}

// ---------------------------------------------------------------------------
// Rewriting one block
// ---------------------------------------------------------------------------

/// Whether `s` is a compound section whose `Y` is the byte `y`.
pub open spec fn section_has_y(s: Nbt, y: i8) -> bool {
    match s {
        Nbt::Compound(es) => lookup(es@, "Y"@) == Some(Nbt::Byte(y)),
        _ => false,
    }
}

/// The position of the first section whose `Y` is the byte `y`.
pub open spec fn section_position(secs: Seq<Nbt>, y: i8) -> Option<int>
    decreases secs.len(),
{
    if secs.len() == 0 {
        None
    } else if section_has_y(secs[0], y) {
        Some(0)
    } else {
        match section_position(secs.drop_first(), y) {
            Some(i) => Some(i + 1),
            None => None,
        }
    }
}

/// The position of the first palette entry named `target`.
pub open spec fn palette_position(pal: Seq<Nbt>, target: Seq<char>) -> Option<int>
    decreases pal.len(),
{
    if pal.len() == 0 {
        None
    } else if entry_name(pal[0]) == Some(target) {
        Some(0)
    } else {
        match palette_position(pal.drop_first(), target) {
            Some(i) => Some(i + 1),
            None => None,
        }
    }
}

/// "seção Y=<y>".
pub open spec fn section_label(y: i8) -> Seq<char> {
    "seção Y="@ + signed_decimal(y as int)
}

/// Where a block edit lands: the section's position in `sections`, the
/// section's palette length, the target's palette index and the section's
/// packed data; or why the chunk cannot take the edit.
pub open spec fn edit_site(root: Nbt, y: i8, target: Seq<char>) -> Result<(int, nat, int, Seq<i64>), Seq<char>> {
    match root {
        Nbt::Compound(es) => match lookup(es@, "sections"@) {
            Some(Nbt::List(secs)) => match section_position(secs@, y) {
                None => Err(section_label(y) + " não encontrada"@),
                Some(i) => match secs@[i] {
                    Nbt::Compound(ses) => match lookup(ses@, "block_states"@) {
                        Some(Nbt::Compound(bs)) => match lookup(bs@, "palette"@) {
                            Some(Nbt::List(pal)) => match palette_position(pal@, target) {
                                None => Err(
                                    "\""@ + target
                                        + "\" não está na palette desta seção (tipos presentes precisam já existir — sem crescer a palette aqui)"@,
                                ),
                                Some(t) => match lookup(bs@, "data"@) {
                                    Some(Nbt::LongArray(d)) => Ok((i, pal@.len(), t, d@)),
                                    _ => Err(
                                        "block_states sem data (palette de 1 tipo só — nada a sobrescrever)"@,
                                    ),
                                },
                            },
                            _ => Err("block_states sem palette"@),
                        },
                        _ => Err(
                            section_label(y)
                                + " não tem block_states (provavelmente só ar — sem palette pra reaproveitar)"@,
                        ),
                    },
                    _ => Err(Seq::empty()),
                },
            },
            _ => Err("chunk não tem lista \"sections\""@),
        },
        _ => Err("raiz do chunk não é um Compound"@),
    }
}

/// The refusal of a block position past the end of the section's data.
pub open spec fn outside_data() -> Seq<char> {
    "bloco local fora de data"@
}

/// The index of a block inside its section: `y * 256 + z * 16 + x`.
pub open spec fn local_index(x: int, y: int, z: int) -> int {
    y * 256 + z * 16 + x
}

/// Whether the block at `idx` has a packed slot in `data` (of a palette of
/// `n` entries) that a `usize` can address.
pub open spec fn in_data(idx: int, n: nat, data: Seq<i64>) -> bool {
    idx <= usize::MAX && idx / ((64nat / bits_per_block(n)) as int) < data.len()
}

/// A block edit that fits: the section it lands in, the target's palette
/// index, the index the block held, and the section's new packed data.
#[derive(Debug, Clone, PartialEq, Eq)]
pub struct BlockEdit {
    pub section_index: usize,
    pub target_index: usize,
    pub before: u64,
    pub data: Vec<i64>,
}

/// The first section named `y`.
fn find_section(secs: &Vec<Nbt>, y: i8) -> (r: Option<usize>)
    ensures
        match r {
            Some(i) => section_position(secs@, y) == Some(i as int),
            None => section_position(secs@, y) is None,
        },
{
    let mut k: usize = 0;
    assert(secs@.skip(0) == secs@);
    while k < secs.len()
        invariant
            k <= secs.len(),
            section_position(secs@, y) == match section_position(secs@.skip(k as int), y) {
                Some(i) => Some(i + k),
                None => None,
            },
        decreases secs.len() - k,
    {
        assert(secs@.skip(k as int).drop_first() == secs@.skip(k + 1));
        let hit = match &secs[k] {
            Nbt::Compound(es) => match get(es, "Y") {
                Some(Nbt::Byte(b)) => *b == y,
                _ => false,
            },
            _ => false,
        };
        if hit {
            return Some(k);
        }
        k = k + 1;
    }
    None
}

/// The first palette entry named `target`.
fn find_in_palette(pal: &Vec<Nbt>, target: &str) -> (r: Option<usize>)
    ensures
        match r {
            Some(i) => palette_position(pal@, target@) == Some(i as int),
            None => palette_position(pal@, target@) is None,
        },
{
    let mut k: usize = 0;
    assert(pal@.skip(0) == pal@);
    while k < pal.len()
        invariant
            k <= pal.len(),
            palette_position(pal@, target@) == match palette_position(pal@.skip(k as int), target@) {
                Some(i) => Some(i + k),
                None => None,
            },
        decreases pal.len() - k,
    {
        assert(pal@.skip(k as int).drop_first() == pal@.skip(k + 1));
        let hit = match block_name(&pal[k]) {
            Ok(n) => str_equals(n.as_str(), target),
            Err(_) => false,
        };
        if hit {
            return Some(k);
        }
        k = k + 1;
    }
    None
}

/// `"seção Y=<y><rest>"`.
fn section_message(y: i8, rest: &str) -> (r: String)
    ensures
        r@ == section_label(y) + rest@,
{
    let mut v = chars_of("seção Y=");
    let d = i64_decimal(y as i64);
    let mut k: usize = 0;
    while k < d.len()
        invariant
            k <= d.len(),
            v@ == "seção Y="@ + d@.take(k as int),
        decreases d.len() - k,
    {
        v.push(d[k]);
        proof {
            assert(d@.take(k + 1) == d@.take(k as int).push(d@[k as int]));
        }
        k = k + 1;
    }
    assert(d@.take(d.len() as int) == d@);
    append_str(&mut v, rest);
    string_of(v.as_slice())
}

/// Plans rewriting the block at `(local_x, local_y, local_z)` of the
/// section whose `Y` is `section_y` to the palette entry named `target`:
/// the new packed data holds the target's index at that block, and every
/// other bit of the data (other blocks, unused high bits) unchanged. The caller stores the data back into that
/// section.
pub fn plan_block_edit(
    root: &Nbt,
    section_y: i8,
    local_x: usize,
    local_y: usize,
    local_z: usize,
    target: &str,
) -> (r: Result<BlockEdit, String>)
    ensures
        match edit_site(*root, section_y, target@) {
            Err(m) => r matches Err(e) && e@ == m,
            Ok((si, n, t, d)) => {
                let idx = local_index(local_x as int, local_y as int, local_z as int);
                let bits = bits_per_block(n);
                if in_data(idx, n, d) {
                    r matches Ok(e) && {
                        &&& e.section_index == si
                        &&& e.target_index == t
                        &&& e.data@.len() == d.len()
                        &&& e.data@ == packed_write(d, bits, idx, t as u64)
                        &&& e.before == packed_entry(d, bits, idx)
                        &&& packed_entry(e.data@, bits, idx) == t
                        &&& forall|j: int|
                            0 <= j < d.len() * (64nat / bits) && j != idx ==> #[trigger] packed_entry(
                                e.data@,
                                bits,
                                j,
                            ) == packed_entry(d, bits, j)
                    }
                } else {
                    r matches Err(e) && e@ == outside_data()
                }
            },
        },
{
    let es = match root {
        Nbt::Compound(es) => es,
        _ => {
            return Err(string_lit("raiz do chunk não é um Compound"));
        },
    };
    let secs = match get(es, "sections") {
        Some(Nbt::List(secs)) => secs,
        _ => {
            return Err(string_lit("chunk não tem lista \"sections\""));
        },
    };
    let si = match find_section(secs, section_y) {
        Some(i) => i,
        None => {
            return Err(section_message(section_y, " não encontrada"));
        },
    };
    proof {
        lemma_section_position(secs@, section_y);
    }
    let ses = match &secs[si] {
        Nbt::Compound(ses) => ses,
        _ => {
            return Err(string_lit(""));
        },
    };
    let bs = match get(ses, "block_states") {
        Some(Nbt::Compound(bs)) => bs,
        _ => {
            return Err(
                section_message(
                    section_y,
                    " não tem block_states (provavelmente só ar — sem palette pra reaproveitar)",
                ),
            );
        },
    };
    let pal = match get(bs, "palette") {
        Some(Nbt::List(pal)) => pal,
        _ => {
            return Err(string_lit("block_states sem palette"));
        },
    };
    let t = match find_in_palette(pal, target) {
        Some(t) => t,
        None => {
            let mut m = chars_of("\"");
            append_str(&mut m, target);
            append_str(
                &mut m,
                "\" não está na palette desta seção (tipos presentes precisam já existir — sem crescer a palette aqui)",
            );
            return Err(string_of(m.as_slice()));
        },
    };
    proof {
        lemma_palette_position(pal@, target@);
    }
    let data = match get(bs, "data") {
        Some(Nbt::LongArray(d)) => d,
        _ => {
            return Err(string_lit("block_states sem data (palette de 1 tipo só — nada a sobrescrever)"));
        },
    };
    let idx: u128 = (local_y as u128) * 256 + (local_z as u128) * 16 + (local_x as u128);
    let bits = crate::world::chunk::bits_needed(pal.len());
    let bits = if bits < 4 {
        4
    } else {
        bits
    };
    let per_long = 64 / bits;
    proof {
        assert(bits as nat == bits_per_block(pal@.len()));
        assert(per_long >= 1) by (nonlinear_arith)
            requires
                4 <= bits <= 64,
                per_long == 64usize / bits,
        ;
    }
    if idx > usize::MAX as u128 || idx / (per_long as u128) >= data.len() as u128 {
        return Err(string_lit("bloco local fora de data"));
    }
    let li = idx as usize;
    let mut new_data = data.clone();
    assert(new_data@ == data@);
    let before = set_packed_index(&mut new_data, pal.len(), li, t);
    Ok(BlockEdit { section_index: si, target_index: t, before, data: new_data })
}

/// The section that `section_position` finds is a compound with that `Y`.
proof fn lemma_section_position(secs: Seq<Nbt>, y: i8)
    ensures
        section_position(secs, y) matches Some(i) ==> 0 <= i < secs.len() && section_has_y(
            secs[i],
            y,
        ),
    decreases secs.len(),
{
    if secs.len() > 0 && !section_has_y(secs[0], y) {
        lemma_section_position(secs.drop_first(), y);
    }
}

/// The entry that `palette_position` finds is within the palette.
proof fn lemma_palette_position(pal: Seq<Nbt>, target: Seq<char>)
    ensures
        palette_position(pal, target) matches Some(i) ==> 0 <= i < pal.len(),
    decreases pal.len(),
{
    if pal.len() > 0 && entry_name(pal[0]) != Some(target) {
        lemma_palette_position(pal.drop_first(), target);
    }
}

} // verus!

use std::collections::HashMap;
use std::io::Cursor;

use fastanvil::Region;
use fastnbt::Value;

use mcgit::world::chunk::{
    bits_needed, block_identity, count_chunk_blocks, count_chunk_entities, count_chunk_structures,
    decode_chunk_sections, diff_chunk_blocks, diff_chunk_entities, diff_chunk_structures,
    parse_chunk, set_packed_index, BLOCKS_PER_SECTION,
};
use mcgit::world::edit::{bump_inhabited_time, plan_block_edit, section_summaries};
use mcgit::world::nbt::{Nbt, NbtEntry};
use mcgit::world::types::{Presence, WorldError};

fn palette_entry(name: &str) -> Value {
    let mut map = HashMap::new();
    map.insert("Name".to_string(), Value::String(name.to_string()));
    Value::Compound(map)
}

fn palette_entry_with_properties(name: &str, properties: &[(&str, &str)]) -> Value {
    let mut map = HashMap::new();
    map.insert("Name".to_string(), Value::String(name.to_string()));
    let mut props = HashMap::new();
    for (k, v) in properties {
        props.insert(k.to_string(), Value::String(v.to_string()));
    }
    map.insert("Properties".to_string(), Value::Compound(props));
    Value::Compound(map)
}

fn pack_indices(indices: &[usize], palette_len: usize) -> Vec<i64> {
    let bits_per_block = bits_needed(palette_len).max(4);
    let entries_per_long = 64 / bits_per_block;

    indices
        .chunks(entries_per_long)
        .map(|chunk| {
            let mut long: u64 = 0;
            for (i, &index) in chunk.iter().enumerate() {
                long |= (index as u64) << (i * bits_per_block);
            }
            long as i64
        })
        .collect()
}

fn section_nbt(y: i8, palette: Vec<Value>, indices: Option<Vec<usize>>) -> Value {
    let mut block_states = HashMap::new();
    let palette_len = palette.len();
    block_states.insert("palette".to_string(), Value::List(palette));
    if let Some(indices) = indices {
        let packed = pack_indices(&indices, palette_len);
        block_states.insert("data".to_string(), Value::LongArray(fastnbt::LongArray::new(packed)));
    }

    let mut section = HashMap::new();
    section.insert("Y".to_string(), Value::Byte(y));
    section.insert("block_states".to_string(), Value::Compound(block_states));
    Value::Compound(section)
}

fn chunk_nbt_bytes(sections: Vec<Value>) -> Vec<u8> {
    let mut chunk = HashMap::new();
    chunk.insert("sections".to_string(), Value::List(sections));
    fastnbt::to_bytes(&Value::Compound(chunk)).unwrap()
}

fn decode(bytes: &[u8]) -> Vec<(i8, Vec<String>)> {
    let root = parse_chunk(bytes).unwrap();
    decode_chunk_sections(&root).unwrap()
}

fn blocks_at(decoded: &[(i8, Vec<String>)], y: i8) -> Vec<String> {
    decoded.iter().rev().find(|(sy, _)| *sy == y).map(|(_, b)| b.clone()).unwrap()
}

fn count(bytes: &[u8]) -> Vec<(String, u64)> {
    let mut counts = Vec::new();
    count_chunk_blocks(bytes, &mut counts).unwrap();
    counts
}

fn tally(counts: &[(String, u64)], name: &str) -> Option<u64> {
    counts.iter().find(|(n, _)| n == name).map(|(_, c)| *c)
}

fn nbt_string(s: &str) -> Nbt {
    Nbt::String(s.to_string())
}

fn entry(key: &str, value: Nbt) -> NbtEntry {
    NbtEntry { key: key.to_string(), value }
}

#[test]
fn decodes_single_entry_palette_without_data_as_uniform_blocks() {
    let sections = vec![section_nbt(6, vec![palette_entry("minecraft:air")], None)];
    let bytes = chunk_nbt_bytes(sections);

    let decoded = decode(&bytes);
    let blocks = blocks_at(&decoded, 6);
    assert_eq!(blocks.len(), BLOCKS_PER_SECTION);
    assert!(blocks.iter().all(|b| b == "minecraft:air"));
}

#[test]
fn decodes_multi_entry_palette_with_bit_packing() {
    let names: Vec<String> = (0..18).map(|i| format!("minecraft:block_{i}")).collect();
    let palette: Vec<Value> = names.iter().map(|n| palette_entry(n)).collect();

    let mut indices = vec![0usize; BLOCKS_PER_SECTION];
    indices[0] = 5;
    indices[4095] = 17;

    let sections = vec![section_nbt(4, palette, Some(indices.clone()))];
    let bytes = chunk_nbt_bytes(sections);

    let decoded = decode(&bytes);
    let blocks = blocks_at(&decoded, 4);
    assert_eq!(blocks.len(), BLOCKS_PER_SECTION);
    assert_eq!(blocks[0], "minecraft:block_5");
    assert_eq!(blocks[4095], "minecraft:block_17");
    assert_eq!(blocks[1], "minecraft:block_0");
}

#[test]
fn same_name_different_properties_are_different_identities() {
    let lit = Nbt::Compound(vec![
        entry("Name", nbt_string("minecraft:furnace")),
        entry(
            "Properties",
            Nbt::Compound(vec![entry("lit", nbt_string("true")), entry("facing", nbt_string("north"))]),
        ),
    ]);
    let unlit = Nbt::Compound(vec![
        entry("Name", nbt_string("minecraft:furnace")),
        entry(
            "Properties",
            Nbt::Compound(vec![entry("facing", nbt_string("north")), entry("lit", nbt_string("false"))]),
        ),
    ]);
    let lit = block_identity(&lit).unwrap();
    let unlit = block_identity(&unlit).unwrap();

    assert_ne!(lit, unlit);
    assert_eq!(lit, "minecraft:furnace[facing=north,lit=true]");
}

#[test]
fn identity_of_entries_read_from_bytes_ignores_property_order() {
    let bytes = chunk_nbt_bytes(vec![section_nbt(
        0,
        vec![palette_entry_with_properties(
            "minecraft:oak_stairs",
            &[("half", "top"), ("facing", "east"), ("shape", "straight")],
        )],
        None,
    )]);
    let blocks = blocks_at(&decode(&bytes), 0);
    assert_eq!(blocks[0], "minecraft:oak_stairs[facing=east,half=top,shape=straight]");
}

#[test]
fn identity_errors_name_the_problem() {
    assert_eq!(
        block_identity(&nbt_string("x")),
        Err(WorldError::Shape("palette entry is not a compound".to_string()))
    );
    assert_eq!(
        block_identity(&Nbt::Compound(vec![])),
        Err(WorldError::Shape("palette entry missing Name".to_string()))
    );
}

#[test]
fn diff_chunk_blocks_reports_only_the_block_that_changed() {
    let from_sections = vec![section_nbt(
        0,
        vec![palette_entry("minecraft:stone"), palette_entry("minecraft:air")],
        Some(vec![0; BLOCKS_PER_SECTION]),
    )];
    let mut to_indices = vec![0usize; BLOCKS_PER_SECTION];
    to_indices[0] = 1;

    let to_sections = vec![section_nbt(
        0,
        vec![palette_entry("minecraft:stone"), palette_entry("minecraft:air")],
        Some(to_indices),
    )];

    let from_bytes = chunk_nbt_bytes(from_sections);
    let to_bytes = chunk_nbt_bytes(to_sections);

    let diffs = diff_chunk_blocks(&from_bytes, &to_bytes, 2, -3).unwrap();

    assert_eq!(diffs.len(), 1);
    assert_eq!(diffs[0].x, 2 * 16);
    assert_eq!(diffs[0].y, 0);
    assert_eq!(diffs[0].z, -3 * 16);
    assert_eq!(diffs[0].from, "minecraft:stone");
    assert_eq!(diffs[0].to, "minecraft:air");
}

#[test]
fn diff_chunk_blocks_skips_sections_present_on_only_one_side() {
    let from_sections = vec![section_nbt(0, vec![palette_entry("minecraft:stone")], None)];
    let to_sections = vec![
        section_nbt(0, vec![palette_entry("minecraft:stone")], None),
        section_nbt(1, vec![palette_entry("minecraft:dirt")], None),
    ];

    let from_bytes = chunk_nbt_bytes(from_sections);
    let to_bytes = chunk_nbt_bytes(to_sections);

    let diffs = diff_chunk_blocks(&from_bytes, &to_bytes, 0, 0).unwrap();
    assert!(diffs.is_empty());
}

#[test]
fn diff_chunk_blocks_of_a_chunk_with_itself_is_empty() {
    let mut indices = vec![0usize; BLOCKS_PER_SECTION];
    indices[77] = 1;
    let bytes = chunk_nbt_bytes(vec![section_nbt(
        2,
        vec![palette_entry("minecraft:stone"), palette_entry("minecraft:gold_ore")],
        Some(indices),
    )]);
    assert!(diff_chunk_blocks(&bytes, &bytes, 5, 5).unwrap().is_empty());
}

#[test]
fn diff_chunk_blocks_positions_follow_the_section_layout() {
    // Index 4095 of section Y=-1 is local (15, 15, 15).
    let from = chunk_nbt_bytes(vec![section_nbt(
        -1,
        vec![palette_entry("minecraft:stone"), palette_entry("minecraft:air")],
        Some(vec![0; BLOCKS_PER_SECTION]),
    )]);
    let mut to_indices = vec![0usize; BLOCKS_PER_SECTION];
    to_indices[4095] = 1;
    let to = chunk_nbt_bytes(vec![section_nbt(
        -1,
        vec![palette_entry("minecraft:stone"), palette_entry("minecraft:air")],
        Some(to_indices),
    )]);
    let diffs = diff_chunk_blocks(&from, &to, -1, 0).unwrap();
    assert_eq!(diffs.len(), 1);
    assert_eq!((diffs[0].x, diffs[0].y, diffs[0].z), (-16 + 15, -16 + 15, 15));
}

#[test]
fn unparsable_chunk_bytes_are_an_nbt_error() {
    let good = chunk_nbt_bytes(vec![]);
    assert!(matches!(diff_chunk_blocks(b"\x01garbage", &good, 0, 0), Err(WorldError::Nbt(_))));
    let mut counts = Vec::new();
    assert!(matches!(count_chunk_blocks(b"\x01garbage", &mut counts), Err(WorldError::Nbt(_))));
    assert!(counts.is_empty());
}

#[test]
fn decodes_a_chunk_read_back_out_of_a_real_region() {
    let sections = vec![section_nbt(0, vec![palette_entry("minecraft:stone")], None)];
    let chunk_bytes = chunk_nbt_bytes(sections);

    let mut region = Region::create(Cursor::new(Vec::new())).unwrap();
    region.write_chunk(0, 0, &chunk_bytes).unwrap();
    let region_bytes = region.into_inner().unwrap().into_inner();

    let mut region = Region::from_stream(Cursor::new(region_bytes)).unwrap();
    let raw = region.read_chunk(0, 0).unwrap().unwrap();

    let decoded = decode(&raw);
    assert_eq!(blocks_at(&decoded, 0), vec!["minecraft:stone".to_string(); BLOCKS_PER_SECTION]);
}

#[test]
fn count_chunk_blocks_tallies_a_single_entry_palette_section() {
    let sections = vec![section_nbt(6, vec![palette_entry("minecraft:air")], None)];
    let bytes = chunk_nbt_bytes(sections);

    let counts = count(&bytes);

    assert_eq!(counts.len(), 1);
    assert_eq!(tally(&counts, "minecraft:air"), Some(BLOCKS_PER_SECTION as u64));
}

#[test]
fn count_chunk_blocks_tallies_a_multi_entry_palette_section() {
    let names: Vec<String> = (0..18).map(|i| format!("minecraft:block_{i}")).collect();
    let palette: Vec<Value> = names.iter().map(|n| palette_entry(n)).collect();

    let mut indices = vec![0usize; BLOCKS_PER_SECTION];
    indices[0] = 5;
    indices[1] = 5;

    let sections = vec![section_nbt(4, palette, Some(indices))];
    let bytes = chunk_nbt_bytes(sections);

    let counts = count(&bytes);

    assert_eq!(tally(&counts, "minecraft:block_5"), Some(2));
    assert_eq!(tally(&counts, "minecraft:block_0"), Some((BLOCKS_PER_SECTION - 2) as u64));
    assert_eq!(tally(&counts, "minecraft:block_17"), None, "never appears, shouldn't show up at all");
}

#[test]
fn count_chunk_blocks_ignores_properties_unlike_diffing() {
    let sections = vec![section_nbt(
        0,
        vec![
            palette_entry_with_properties("minecraft:furnace", &[("lit", "true")]),
            palette_entry_with_properties("minecraft:furnace", &[("lit", "false")]),
        ],
        Some(vec![0; BLOCKS_PER_SECTION]),
    )];
    let bytes = chunk_nbt_bytes(sections);

    let counts = count(&bytes);

    assert_eq!(counts.len(), 1);
    assert_eq!(tally(&counts, "minecraft:furnace"), Some(BLOCKS_PER_SECTION as u64));
}

#[test]
fn count_chunk_blocks_sums_across_multiple_sections() {
    let sections = vec![
        section_nbt(0, vec![palette_entry("minecraft:stone")], None),
        section_nbt(1, vec![palette_entry("minecraft:stone")], None),
    ];
    let bytes = chunk_nbt_bytes(sections);

    let counts = count(&bytes);

    assert_eq!(tally(&counts, "minecraft:stone"), Some((BLOCKS_PER_SECTION * 2) as u64));
}

#[test]
fn count_chunk_blocks_adds_to_existing_tallies() {
    let bytes = chunk_nbt_bytes(vec![section_nbt(0, vec![palette_entry("minecraft:stone")], None)]);
    let mut counts = vec![("minecraft:stone".to_string(), 4u64), ("minecraft:dirt".to_string(), 1)];
    count_chunk_blocks(&bytes, &mut counts).unwrap();
    assert_eq!(tally(&counts, "minecraft:stone"), Some(4 + BLOCKS_PER_SECTION as u64));
    assert_eq!(tally(&counts, "minecraft:dirt"), Some(1));
}

fn entity(id: &str, uuid: [i32; 4]) -> Value {
    let mut map = HashMap::new();
    map.insert("id".to_string(), Value::String(id.to_string()));
    map.insert("UUID".to_string(), Value::IntArray(fastnbt::IntArray::new(uuid.to_vec())));
    Value::Compound(map)
}

fn entities_chunk(entities: Vec<Value>) -> Vec<u8> {
    let mut chunk = HashMap::new();
    chunk.insert("Entities".to_string(), Value::List(entities));
    fastnbt::to_bytes(&Value::Compound(chunk)).unwrap()
}

#[test]
fn entity_diff_reports_who_left_and_who_arrived() {
    let cow = entity("minecraft:cow", [1, 2, 3, 4]);
    let pig = entity("minecraft:pig", [5, 6, 7, 8]);
    let sheep = entity("minecraft:sheep", [9, 10, 11, 12]);
    let from = entities_chunk(vec![cow.clone(), pig]);
    let to = entities_chunk(vec![cow, sheep]);

    let diffs = diff_chunk_entities(&from, &to).unwrap();
    assert_eq!(diffs.len(), 2);
    assert_eq!(diffs[0].id, "minecraft:pig");
    assert_eq!(diffs[0].presence, Presence::Removed);
    assert_eq!(diffs[1].id, "minecraft:sheep");
    assert_eq!(diffs[1].presence, Presence::Added);
    assert!(diff_chunk_entities(&from, &from).unwrap().is_empty());

    let mut counts = Vec::new();
    count_chunk_entities(&from, &mut counts).unwrap();
    assert_eq!(tally(&counts, "minecraft:cow"), Some(1));
    assert_eq!(tally(&counts, "minecraft:pig"), Some(1));
}

fn structures_chunk(starts: &[&str]) -> Vec<u8> {
    let mut start_map = HashMap::new();
    for s in starts {
        let mut one = HashMap::new();
        one.insert("id".to_string(), Value::String(s.to_string()));
        start_map.insert(s.to_string(), Value::Compound(one));
    }
    let mut structures = HashMap::new();
    structures.insert("starts".to_string(), Value::Compound(start_map));
    let mut chunk = HashMap::new();
    chunk.insert("structures".to_string(), Value::Compound(structures));
    fastnbt::to_bytes(&Value::Compound(chunk)).unwrap()
}

#[test]
fn structure_diff_and_tally() {
    let from = structures_chunk(&["minecraft:village_plains"]);
    let to = structures_chunk(&["minecraft:village_plains", "minecraft:trial_chambers"]);
    let diffs = diff_chunk_structures(&from, &to).unwrap();
    assert_eq!(diffs.len(), 1);
    assert_eq!(diffs[0].id, "minecraft:trial_chambers");
    assert_eq!(diffs[0].presence, Presence::Added);

    let mut counts = Vec::new();
    count_chunk_structures(&to, &mut counts).unwrap();
    assert_eq!(counts.len(), 2);
    assert_eq!(tally(&counts, "minecraft:trial_chambers"), Some(1));
}

#[test]
fn set_packed_index_rewrites_only_the_target_slot() {
    let palette_len = 18; // 5 bits per block, 12 per long
    let mut indices = vec![3usize; BLOCKS_PER_SECTION];
    indices[100] = 7;
    let mut data = pack_indices(&indices, palette_len);
    let before = set_packed_index(&mut data, palette_len, 100, 17);
    assert_eq!(before, 7);
    indices[100] = 17;
    assert_eq!(data, pack_indices(&indices, palette_len));
}

fn root_of(bytes: &[u8]) -> Nbt {
    parse_chunk(bytes).unwrap()
}

#[test]
fn block_edit_rewrites_one_block_to_a_palette_entry() {
    let bytes = chunk_nbt_bytes(vec![section_nbt(
        3,
        vec![palette_entry("minecraft:stone"), palette_entry("minecraft:air")],
        Some(vec![0; BLOCKS_PER_SECTION]),
    )]);
    let root = root_of(&bytes);
    let edit = plan_block_edit(&root, 3, 1, 2, 3, "minecraft:air").unwrap();
    assert_eq!(edit.section_index, 0);
    assert_eq!(edit.target_index, 1);
    assert_eq!(edit.before, 0);
    let mut expected = vec![0usize; BLOCKS_PER_SECTION];
    expected[2 * 256 + 3 * 16 + 1] = 1;
    assert_eq!(edit.data, pack_indices(&expected, 2));
}

#[test]
fn block_edit_refusals() {
    let bytes = chunk_nbt_bytes(vec![section_nbt(
        3,
        vec![palette_entry("minecraft:stone"), palette_entry("minecraft:air")],
        Some(vec![0; BLOCKS_PER_SECTION]),
    )]);
    let root = root_of(&bytes);
    assert_eq!(plan_block_edit(&root, 4, 0, 0, 0, "minecraft:air").unwrap_err(), "seção Y=4 não encontrada");
    assert_eq!(
        plan_block_edit(&root, 3, 0, 0, 0, "minecraft:dirt").unwrap_err(),
        "\"minecraft:dirt\" não está na palette desta seção (tipos presentes precisam já existir — sem crescer a palette aqui)"
    );
    assert_eq!(plan_block_edit(&root, 3, 0, 16, 0, "minecraft:air").unwrap_err(), "bloco local fora de data");
    assert_eq!(
        plan_block_edit(&nbt_string("x"), 3, 0, 0, 0, "minecraft:air").unwrap_err(),
        "raiz do chunk não é um Compound"
    );
    let no_data = root_of(&chunk_nbt_bytes(vec![section_nbt(-2, vec![palette_entry("minecraft:air")], None)]));
    assert_eq!(
        plan_block_edit(&no_data, -2, 0, 0, 0, "minecraft:air").unwrap_err(),
        "block_states sem data (palette de 1 tipo só — nada a sobrescrever)"
    );
}

#[test]
fn inhabited_time_bumps_by_a_second() {
    let root = Nbt::Compound(vec![entry("InhabitedTime", Nbt::Long(100))]);
    assert_eq!(bump_inhabited_time(&root), Ok((100, 120)));
    let missing = Nbt::Compound(vec![]);
    assert_eq!(
        bump_inhabited_time(&missing),
        Err("campo InhabitedTime não encontrado na raiz do chunk (formato pode ser diferente do esperado)".to_string())
    );
}

#[test]
fn section_summaries_describe_each_section() {
    let bytes = chunk_nbt_bytes(vec![section_nbt(
        1,
        vec![palette_entry("minecraft:stone"), palette_entry("minecraft:air")],
        Some(vec![0; BLOCKS_PER_SECTION]),
    )]);
    let root = root_of(&bytes);
    let entries = match &root {
        Nbt::Compound(es) => es,
        _ => panic!("root is a compound"),
    };
    let summaries = section_summaries(entries).unwrap();
    assert_eq!(summaries.len(), 1);
    assert_eq!(summaries[0].y, Some(1));
    assert!(summaries[0].has_block_states);
    assert_eq!(summaries[0].palette_len, 2);
    assert_eq!(summaries[0].data_len, 256);
    assert_eq!(summaries[0].names, vec!["minecraft:stone".to_string(), "minecraft:air".to_string()]);
    assert!(section_summaries(&vec![]).is_none());
}

#[test]
fn entity_diff_the_other_way_round_swaps_presence() {
    let cow = entity("minecraft:cow", [1, 2, 3, 4]);
    let pig = entity("minecraft:pig", [5, 6, 7, 8]);
    let sheep = entity("minecraft:sheep", [9, 10, 11, 12]);
    let a = entities_chunk(vec![cow.clone(), pig]);
    let b = entities_chunk(vec![cow, sheep]);
    let forward = diff_chunk_entities(&a, &b).unwrap();
    let backward = diff_chunk_entities(&b, &a).unwrap();
    assert_eq!(forward.len(), backward.len());
    for d in &forward {
        let flipped = match d.presence {
            Presence::Added => Presence::Removed,
            Presence::Removed => Presence::Added,
        };
        assert!(backward.iter().any(|e| e.uuid == d.uuid && e.id == d.id && e.presence == flipped));
    }
    let s = structures_chunk(&["minecraft:village_plains", "minecraft:ancient_city"]);
    assert!(diff_chunk_structures(&s, &s).unwrap().is_empty());
}

#[test]
fn non_string_property_values_render_as_their_debug_text() {
    let entry_of = |v: Nbt| {
        Nbt::Compound(vec![
            entry("Name", nbt_string("minecraft:test")),
            entry("Properties", Nbt::Compound(vec![entry("p", v)])),
        ])
    };
    let cases = vec![
        (Nbt::Int(3), format!("{:?}", fastnbt::Value::Int(3))),
        (
            Nbt::List(vec![Nbt::Byte(1), nbt_string("a\"b")]),
            format!(
                "{:?}",
                fastnbt::Value::List(vec![fastnbt::Value::Byte(1), fastnbt::Value::String("a\"b".to_string())])
            ),
        ),
        (
            Nbt::ByteArray(vec![1, -2]),
            format!("{:?}", fastnbt::Value::ByteArray(fastnbt::ByteArray::new(vec![1, -2]))),
        ),
        (Nbt::LongArray(vec![]), format!("{:?}", fastnbt::Value::LongArray(fastnbt::LongArray::new(vec![])))),
        (
            Nbt::Compound(vec![entry("k", Nbt::Short(-7))]),
            format!(
                "{:?}",
                fastnbt::Value::Compound(std::collections::HashMap::from([(
                    "k".to_string(),
                    fastnbt::Value::Short(-7)
                )]))
            ),
        ),
    ];
    for (v, text) in cases {
        assert_eq!(block_identity(&entry_of(v)).unwrap(), format!("minecraft:test[p={text}]"));
    }
}

#[test]
fn a_malformed_section_stops_the_tally_after_the_ones_before_it() {
    let mut broken = HashMap::new();
    broken.insert("Y".to_string(), Value::Byte(1));
    broken.insert("block_states".to_string(), Value::Compound(HashMap::new()));
    let bytes = chunk_nbt_bytes(vec![
        section_nbt(0, vec![palette_entry("minecraft:stone")], None),
        Value::Compound(broken),
    ]);
    let mut counts: Vec<(String, u64)> = Vec::new();
    let r = mcgit::world::chunk::count_chunk_blocks(&bytes, &mut counts);
    assert!(matches!(r, Err(WorldError::Shape(_))));
    assert_eq!(counts, vec![("minecraft:stone".to_string(), 4096)]);
}

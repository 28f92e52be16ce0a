use std::collections::HashMap;
use std::io::Cursor;

use fastanvil::Region;

use mcgit::world::region::{
    count_region_blocks, diff_region_chunks, list_generated_chunks, parse_region_coords,
    region_chunk, region_is_readable,
};
use mcgit::world::types::ChunkStatus;

const BLOCKS_PER_SECTION: u64 = 16 * 16 * 16;

#[test]
fn parse_region_coords_handles_negative_coordinates() {
    assert_eq!(parse_region_coords("r.-1.0.mca"), Some((-1, 0)));
    assert_eq!(parse_region_coords("r.0.-1.mca"), Some((0, -1)));
    assert_eq!(parse_region_coords("r.-2.-1.mca"), Some((-2, -1)));
    assert_eq!(parse_region_coords("r.3.5.mca"), Some((3, 5)));
}

#[test]
fn parse_region_coords_rejects_non_matching_names() {
    assert_eq!(parse_region_coords("level.dat"), None);
    assert_eq!(parse_region_coords("r.0.0.mcc"), None);
    assert_eq!(parse_region_coords("r.abc.0.mca"), None);
}

#[test]
fn parse_region_coords_edge_cases() {
    assert_eq!(parse_region_coords("r.+4.2.mca"), Some((4, 2)));
    assert_eq!(parse_region_coords("r.1.2.3.mca"), None);
    assert_eq!(parse_region_coords("r..2.mca"), None);
    assert_eq!(parse_region_coords("r.2147483648.0.mca"), None);
}

fn minimal_chunk_nbt(marker: i64) -> Vec<u8> {
    let mut map = HashMap::new();
    map.insert("InhabitedTime".to_string(), fastnbt::Value::Long(marker));
    fastnbt::to_bytes(&fastnbt::Value::Compound(map)).unwrap()
}

fn build_region(chunks: &[(usize, usize, i64)]) -> Vec<u8> {
    let mut region = Region::create(Cursor::new(Vec::new())).unwrap();
    for &(x, z, marker) in chunks {
        region.write_chunk(x, z, &minimal_chunk_nbt(marker)).unwrap();
    }
    region.into_inner().unwrap().into_inner()
}

fn diff(from: &[u8], to: &[u8], rx: i32, rz: i32) -> Vec<mcgit::world::types::ChunkDiff> {
    assert!(region_is_readable(from) && region_is_readable(to));
    diff_region_chunks(from, to, rx, rz).unwrap()
}

#[test]
fn diff_region_chunks_reports_added_chunk() {
    let from_bytes = build_region(&[]);
    let to_bytes = build_region(&[(2, 3, 1)]);

    let diffs = diff(&from_bytes, &to_bytes, 0, 0);

    assert_eq!(diffs.len(), 1);
    assert_eq!(diffs[0].chunk_x, 2);
    assert_eq!(diffs[0].chunk_z, 3);
    assert_eq!(diffs[0].status, ChunkStatus::Added);
}

#[test]
fn diff_region_chunks_reports_changed_chunk_and_ignores_unchanged_ones() {
    let base_bytes = build_region(&[(0, 0, 1), (5, 5, 1)]);
    let changed_bytes = build_region(&[(0, 0, 2), (5, 5, 1)]);

    let diffs = diff(&base_bytes, &changed_bytes, 1, -2);

    assert_eq!(diffs.len(), 1);
    assert_eq!(diffs[0].status, ChunkStatus::Changed);
    assert_eq!(diffs[0].chunk_x, 32);
    assert_eq!(diffs[0].chunk_z, -64);
}

#[test]
fn diff_region_chunks_reports_removed_chunk() {
    let base_bytes = build_region(&[(10, 10, 1)]);
    let to_bytes = build_region(&[]);

    let diffs = diff(&base_bytes, &to_bytes, 0, 0);

    assert_eq!(diffs.len(), 1);
    assert_eq!(diffs[0].chunk_x, 10);
    assert_eq!(diffs[0].chunk_z, 10);
    assert_eq!(diffs[0].status, ChunkStatus::Removed);
}

#[test]
fn diff_region_chunks_between_identical_regions_returns_empty() {
    let bytes = build_region(&[(0, 0, 1)]);

    let diffs = diff(&bytes, &bytes, 0, 0);

    assert!(diffs.is_empty());
}

#[test]
fn diff_region_chunks_walks_rows_of_z_then_x() {
    let from = build_region(&[]);
    let to = build_region(&[(3, 1, 1), (1, 2, 1), (0, 1, 1)]);
    let diffs = diff(&from, &to, 0, 0);
    let coords: Vec<(i32, i32)> = diffs.iter().map(|d| (d.chunk_x, d.chunk_z)).collect();
    assert_eq!(coords, vec![(0, 1), (3, 1), (1, 2)]);
}

fn chunk_with_single_block(name: &str) -> Vec<u8> {
    let mut entry = HashMap::new();
    entry.insert("Name".to_string(), fastnbt::Value::String(name.to_string()));

    let mut block_states = HashMap::new();
    block_states.insert(
        "palette".to_string(),
        fastnbt::Value::List(vec![fastnbt::Value::Compound(entry)]),
    );

    let mut section = HashMap::new();
    section.insert("Y".to_string(), fastnbt::Value::Byte(0));
    section.insert("block_states".to_string(), fastnbt::Value::Compound(block_states));

    let mut chunk = HashMap::new();
    chunk.insert(
        "sections".to_string(),
        fastnbt::Value::List(vec![fastnbt::Value::Compound(section)]),
    );
    fastnbt::to_bytes(&fastnbt::Value::Compound(chunk)).unwrap()
}

fn tally(counts: &[(String, u64)], name: &str) -> Option<u64> {
    counts.iter().find(|(n, _)| n == name).map(|(_, c)| *c)
}

#[test]
fn count_region_blocks_sums_across_multiple_chunks() {
    let mut region = Region::create(Cursor::new(Vec::new())).unwrap();
    region.write_chunk(0, 0, &chunk_with_single_block("minecraft:stone")).unwrap();
    region.write_chunk(1, 0, &chunk_with_single_block("minecraft:stone")).unwrap();
    region.write_chunk(2, 0, &chunk_with_single_block("minecraft:dirt")).unwrap();
    let bytes = region.into_inner().unwrap().into_inner();

    assert!(region_is_readable(&bytes));
    let counts = count_region_blocks(&bytes).unwrap();

    assert_eq!(tally(&counts, "minecraft:stone"), Some(BLOCKS_PER_SECTION * 2));
    assert_eq!(tally(&counts, "minecraft:dirt"), Some(BLOCKS_PER_SECTION));
}

#[test]
fn count_region_blocks_on_empty_region_returns_empty() {
    let bytes = build_region(&[]);

    assert!(region_is_readable(&bytes));
    let counts = count_region_blocks(&bytes).unwrap();

    assert!(counts.is_empty());
}

#[test]
fn generated_chunks_and_reading_one_back() {
    let bytes = build_region(&[(4, 0, 7), (1, 3, 9)]);
    assert!(region_is_readable(&bytes));
    assert_eq!(list_generated_chunks(&bytes).unwrap(), vec![(4, 0), (1, 3)]);
    let raw = region_chunk(&bytes, 1, 3).unwrap().unwrap();
    assert_eq!(raw, minimal_chunk_nbt(9));
    assert_eq!(region_chunk(&bytes, 2, 2).unwrap(), None);
}

#[test]
fn region_name_round_trips_for_any_coordinates() {
    for (x, z) in [(0, 0), (-1, 5), (i32::MIN, i32::MAX), (i32::MAX, i32::MIN), (123, -4567)] {
        assert_eq!(parse_region_coords(&format!("r.{x}.{z}.mca")), Some((x, z)));
    }
}

#[test]
fn a_region_shorter_than_its_header_does_not_open() {
    let short = vec![0u8; 4095];
    assert!(region_is_readable(&short));
    assert!(matches!(count_region_blocks(&short), Err(mcgit::world::types::WorldError::Anvil(_))));
    let empty_header = vec![0u8; 4096];
    assert_eq!(count_region_blocks(&empty_header), Ok(vec![]));
}

//! Minecraft world data: region files (Anvil), chunk NBT, block-state
//! palettes, and the differences and tallies computed from them.
pub mod chunk;
pub mod counts;
pub mod edit;
pub mod laws;
pub mod nbt;
pub mod region;
pub mod types;

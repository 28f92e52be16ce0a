//! Version control for Minecraft worlds: region/chunk decoding and diffing,
//! Git output interpretation, Java and Minecraft install metadata, instance
//! folders, the application's stored records, and the records its
//! interface is handed.
pub mod dto;
pub mod git;
pub mod instance;
pub mod java;
pub mod minecraft;
pub mod store;
pub mod text;
pub mod world;

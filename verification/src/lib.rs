//! Parsing and address translation for LiME physical-memory dumps.

pub mod connector;
pub mod header;
pub mod memory_map;
pub mod reader;
pub mod table;
pub mod walker;

pub use connector::{create_connector, help};

//! MetaCatalog (`mc`): a data catalog whose source of truth is YAML under
//! `catalog/**`. The library part is the YAML reader, which gives every node of
//! a document the source line it came from.

pub mod dump;
pub mod yaml;

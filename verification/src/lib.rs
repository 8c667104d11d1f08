//! Task orchestration from an INI-like configuration file.

pub mod json;
pub mod name_map;
pub mod executor;
pub mod parser;
pub mod text;

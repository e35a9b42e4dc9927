//! Core library of a Markdown knowledge-base engine: parsing, identities,
//! the note store, hierarchy and refactoring plans.
pub mod line_map;
pub mod model;
pub mod mutation;
pub mod text;
pub mod paths;
pub mod utils;
pub mod semantic;
pub mod markdown;
pub mod digest;
pub mod parser;
pub mod frontmatter;
pub mod identity;
pub mod store;
pub mod config;
pub mod vfs;
pub mod cache;
pub mod workspace;

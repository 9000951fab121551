//! CRI `@UTF` tables and CPK archives.

pub mod cli;
pub mod cpk;
pub mod manifest;
pub mod schema;
pub mod utils;

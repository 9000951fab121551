//! The ciphers of CPK archives.

pub mod data;
pub mod table;

//! The manifest that links an unpacked directory to its archive.

pub mod fields;
pub mod hash;
pub mod inputs;
pub mod laws;
pub mod model;
pub mod numeral_laws;
pub mod path_laws;
pub mod paths;
pub mod reading_laws;
pub mod rebuild_laws;

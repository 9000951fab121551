//! The decisions of the command-line tool.

pub mod argument_laws;
pub mod arguments;
pub mod laws;
pub mod pack;
pub mod unpack;

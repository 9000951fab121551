//! CPK archives.

pub mod archive_laws;
pub mod collect;
pub mod collect_laws;
pub mod compress;
pub mod encrypt;
pub mod error;
pub mod file;
pub mod format_laws;
pub mod header;
pub mod index;
pub mod input;
pub mod layout;
pub mod listing_laws;
pub mod message_laws;
pub mod packing_laws;
pub mod reader;
pub mod reader_laws;
pub mod refusal_laws;
pub mod table_laws;
pub mod utf;
pub mod utf_laws;
pub mod writer;
pub mod writing_laws;

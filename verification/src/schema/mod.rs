//! The `@UTF` table format.

pub mod columns;
pub mod error;
pub mod header;
pub mod rows;
pub mod strings;

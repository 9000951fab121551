//! Bytes, texts, alignment and orderings.

pub mod align;
pub mod bytes;
pub mod sort;
pub mod text;

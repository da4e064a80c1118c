//! Patching of the bit fields of a register in a device description.

pub mod builder;
pub mod collect;
pub mod edit;
pub mod enums;
pub mod error;
pub mod fields;
pub mod laws;
pub mod make;
pub mod matching;
pub mod merge;
pub mod process;
pub mod register;
pub mod split;
pub mod svd;
pub mod text;
pub mod yaml;

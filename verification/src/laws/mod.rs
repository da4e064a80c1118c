//! What holds of the operations on registers taken together.

pub mod arrays;
pub mod changes;
pub mod collecting;
pub mod documents;
pub mod edits;
pub mod masks;
pub mod merging;
pub mod names;
pub mod ordering;
pub mod parts;
pub mod patterns;
pub mod possible;
pub mod processing;
pub mod sets;
pub mod splitting;
pub mod texts;
pub mod undoing;
pub mod values;
pub mod words;

//! A read-later list kept as a flat text file of `key: value` records.

pub mod format;
pub mod input;
pub mod laws;
pub mod order;
pub mod read_later_list;
pub mod search;
pub mod text;

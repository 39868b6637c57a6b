//! A toolkit for the class-file binary format: the deduplicated constant
//! pool that cross-references classes, members and literals inside a
//! compiled unit, and the recursive type-descriptor grammar used to encode
//! field and method types as wire strings.

pub mod constant_pool;
pub mod nodes;
pub mod types;

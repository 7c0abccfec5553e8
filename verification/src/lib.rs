//! Fast multi-pattern string search whose match offsets are reported in
//! UTF-16 code units, the way JavaScript strings index.

pub mod utf8_to_utf16;
pub mod find;
pub mod find_laws;

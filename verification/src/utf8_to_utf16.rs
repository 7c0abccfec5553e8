//! Conversion of UTF-8 byte offsets into UTF-16 code-unit offsets.

pub mod pos;
pub mod text;
pub mod analyze_source_file;
pub mod source_map;

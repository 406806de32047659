//! Directory listing in the manner of `ls`: entry records, filtering,
//! ordering, traversal and the text of each output line.

pub mod columns;
pub mod directory;
pub mod file_info;
pub mod formatter;
pub mod sorting;
pub mod text;
pub mod traversal;
pub mod utils;

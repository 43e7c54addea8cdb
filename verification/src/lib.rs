//! Line-oriented text search: which lines of a file match a pattern, which
//! blocks of context surround them, and how those blocks are written out.

pub mod decimal;
pub mod highlight;
pub mod paths;
pub mod pattern;
pub mod ranges;
pub mod render;
pub mod scan;

//! Filesystem analysis engine of a disk-space utility: size formatting,
//! entry classification, single-pass scan aggregation, duplicate grouping,
//! junk-category accounting, and reading the output of `df` and `ps`.
//! Every routine here works on plain values; walking directories, reading
//! files, deleting them and running programs is left to the caller.

pub mod common;
pub mod text;
pub mod tokens;
pub mod size_format;
pub mod grouping;
pub mod duplicates;
pub mod scan;
pub mod classify;
pub mod junk;
pub mod system;

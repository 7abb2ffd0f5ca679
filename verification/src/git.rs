//! Git-related logic: parsing of `git` output and the repository scan.

pub mod ops;
pub mod scan;

//! Core logic of a tool that keeps many local Git repositories in sync:
//! the watched-repository list, the parsing of `git` output, the naming of
//! clone targets, the directory scan, and the weakly protected fallback
//! store for an SSH private key.

pub mod cli;
pub mod commands;
pub mod config;
pub mod git;
pub mod git_ops;
pub mod repo;
pub mod ssh;
pub mod ssh_key;
pub mod text;

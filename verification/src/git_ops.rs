//! The older form of the status reader, whose status also names the
//! repository it describes.

use vstd::prelude::*;
use vstd::string::StringExecFns;
use crate::git::ops::{parse_rev_list_counts, spec_parse_rev_list_counts, StatusParseError};

verus! {

/// How far the repository at `path` is from its upstream branch.
pub struct RepoStatus {
    /// The repository's path.
    pub path: String,
    /// Commits on the local branch that the upstream lacks.
    pub ahead: u32,
    /// Commits on the upstream that the local branch lacks.
    pub behind: u32,
}

/// Reads the output of `git rev-list --left-right --count HEAD...@{u}`
/// run in the repository at `repo_path`, as `parse_rev_list_counts` does,
/// and names the repository in the status.
pub fn parse_repo_status(repo_path: &str, output: &str) -> (r: Result<RepoStatus, StatusParseError>)
    ensures
        match spec_parse_rev_list_counts(output@) {
            Ok(s) => r matches Ok(t) && t.path@ == repo_path@ && t.ahead == s.ahead && t.behind
                == s.behind,
            Err(e) => r matches Err(f) && f == e,
        },
{
    match parse_rev_list_counts(output) {
        Ok(s) => Ok(RepoStatus { path: String::from_str(repo_path), ahead: s.ahead, behind: s.behind }),
        Err(e) => Err(e),
    }
}

} // verus!

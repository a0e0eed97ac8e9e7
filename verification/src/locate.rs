//! Where the CODEOWNERS file of a repository is.
//!
//! A repository keeps the file at its root, in its `docs` directory or in its
//! `.github` directory. Whoever asks has looked at the three places; which of
//! them is taken, and what is said when none holds the file, is decided here.

use vstd::prelude::*;
use vstd::string::StringExecFns;
use crate::text::{trim, trimmed};

verus! {

/// What a result holds, as text.
pub open spec fn result_text(r: Result<String, String>) -> Result<Seq<char>, Seq<char>> {
    match r {
        Ok(s) => Ok(s@),
        Err(e) => Err(e@),
    }
}

/// What is said when no CODEOWNERS file is found: the three places that were
/// looked at.
pub open spec fn not_found_message(
    root: Seq<char>,
    docs: Seq<char>,
    github: Seq<char>,
) -> Seq<char> {
    "fatal: no CODEOWNERS file found. checked "@ + github + ", "@ + docs + ", "@ + root
}

/// The place that is taken: the first that exists, looking at the root, then
/// in `docs`, then in `.github`. Where none exists, the error names the three
/// places.
pub open spec fn codeowners_path(
    root: Seq<char>,
    docs: Seq<char>,
    github: Seq<char>,
    root_exists: bool,
    docs_exists: bool,
    github_exists: bool,
) -> Result<Seq<char>, Seq<char>> {
    if root_exists {
        Ok(root)
    } else if docs_exists {
        Ok(docs)
    } else if github_exists {
        Ok(github)
    } else {
        Err(not_found_message(root, docs, github))
    }
}

/// What is known of the root of the repository once git has run: its output
/// without the white space around it where it succeeded, and else what it
/// wrote as its error.
pub open spec fn repo_root(
    success: bool,
    stdout: Seq<char>,
    stderr: Seq<char>,
) -> Result<Seq<char>, Seq<char>> {
    if success {
        Ok(trimmed(stdout))
    } else {
        Err(stderr)
    }
}

/// Picks the CODEOWNERS file of a repository. `root`, `docs` and `github` are
/// the paths of the file at the root of the repository, in `docs` and in
/// `.github`, and the three flags say whether a file is there. The first of
/// them, in this order, that exists is taken; if none exists, the error names
/// the three places.
pub fn get_codeowners_path(
    root: &str,
    docs: &str,
    github: &str,
    root_exists: bool,
    docs_exists: bool,
    github_exists: bool,
) -> (r: Result<String, String>)
    ensures
        result_text(r) == codeowners_path(
            root@,
            docs@,
            github@,
            root_exists,
            docs_exists,
            github_exists,
        ),
{
    if root_exists {
        Ok(String::from_str(root))
    } else if docs_exists {
        Ok(String::from_str(docs))
    } else if github_exists {
        Ok(String::from_str(github))
    } else {
        let mut message = String::from_str("fatal: no CODEOWNERS file found. checked ");
        message.append(github);
        message.append(", ");
        message.append(docs);
        message.append(", ");
        message.append(root);
        Err(message)
    }
}

/// The root of the repository, from what `git rev-parse --show-toplevel`
/// gave: where git succeeded, its output without the white space around it,
/// and else what git wrote as its error.
pub fn get_current_repo_root(
    success: bool,
    stdout: &str,
    stderr: &str,
) -> (r: Result<String, String>)
    ensures
        result_text(r) == repo_root(success, stdout@, stderr@),
{
    if success {
        Ok(trim(stdout))
    } else {
        Err(String::from_str(stderr))
    }
}

} // verus!

//! The graph of the repository's commits and where the branches point, in a pager.

use crate::integrations::log::{normalize_remotes, shown_remotes, LogSpec, LogView};
use crate::text::texts;
use vstd::prelude::*;

verus! {

/// The arguments of the command.
#[derive(Debug, PartialEq, Eq)]
pub struct LogArgs {
    /// The repository's directory.
    pub repo: String,
    /// The remotes whose refs are shown, each maybe several, separated by commas.
    pub remote: Vec<String>,
    /// Whether no remote refs are shown.
    pub no_remotes: bool,
    /// Whether tags are walked and shown too.
    pub tags: bool,
    /// How many commits are shown at most.
    pub max_count: Option<i64>,
    /// Further arguments for Git.
    pub git_args: Vec<String>,
}

/// What the arguments ask for: a repository, and what is shown of it.
pub fn run(args: LogArgs) -> (r: (String, LogSpec))
    ensures
        r.0@ == args.repo@,
        r.1@ == (LogView {
            remotes: shown_remotes(texts(args.remote@), args.no_remotes),
            tags: args.tags,
            max_count: args.max_count,
            git_args: texts(args.git_args@),
        }),
{
    let LogArgs { repo, remote, no_remotes, tags, max_count, git_args } = args;
    let remotes = normalize_remotes(&remote, no_remotes);
    (repo, LogSpec { remotes, tags, max_count, git_args })
}

} // verus!

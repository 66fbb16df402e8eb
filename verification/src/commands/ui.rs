//! The interactive graph of the stacks.

use crate::stack::submit::{OptionsView, SubmitOptions};
use crate::text::maybe;
use vstd::prelude::*;

verus! {

/// The arguments of the command.
#[derive(Debug, PartialEq, Eq)]
pub struct UiArgs {
    /// A repository, or a directory whose children are searched for repositories.
    pub repo: String,
    /// The remote of the fork.
    pub remote: String,
    /// The branch of the fork that the stacks sit on.
    pub base: String,
    /// The prefix of the identities given to commits that have none.
    pub prefix: Option<String>,
    /// Whether pull requests are opened ready for review.
    pub no_draft: bool,
}

/// The options that the interactive view is opened with.
pub fn run(args: UiArgs) -> (r: SubmitOptions)
    ensures
        r@ == (OptionsView {
            repo: args.repo@,
            remote: args.remote@,
            base: args.base@,
            prefix: maybe(args.prefix),
            draft: !args.no_draft,
        }),
{
    SubmitOptions {
        repo: args.repo,
        remote: args.remote,
        base: args.base,
        prefix: args.prefix,
        draft: !args.no_draft,
    }
}

} // verus!

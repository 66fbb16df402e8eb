//! Pushing branches and opening the pull requests.

use crate::stack::submit::{OptionsView, SubmitOptions};
use crate::text::{copy_option, maybe};
use vstd::prelude::*;

verus! {

/// The arguments of the command.
#[derive(Debug, PartialEq, Eq)]
pub struct SubmitArgs {
    /// The repository's directory.
    pub repo: String,
    /// The remote of the fork.
    pub remote: String,
    /// The branch of the fork that the stack sits on.
    pub base: String,
    /// The prefix of the identities given to commits that have none.
    pub prefix: Option<String>,
    /// Whether pull requests are opened ready for review.
    pub no_draft: bool,
    /// Whether branches are pushed and pull requests opened, not just shown.
    pub execute: bool,
}

/// The options that arguments stand for.
pub open spec fn options_of(args: SubmitArgs) -> OptionsView {
    OptionsView {
        repo: args.repo@,
        remote: args.remote@,
        base: args.base@,
        prefix: maybe(args.prefix),
        draft: !args.no_draft,
    }
}

impl SubmitArgs {
    /// The options that the arguments stand for.
    pub fn options(&self) -> (r: SubmitOptions)
        ensures
            r@ == options_of(*self),
            r@.repo == self.repo@,
            r@.remote == self.remote@,
            r@.base == self.base@,
            r@.prefix == maybe(self.prefix),
            r@.draft == !self.no_draft,
    {
        SubmitOptions {
            repo: self.repo.clone(),
            remote: self.remote.clone(),
            base: self.base.clone(),
            prefix: copy_option(&self.prefix),
            draft: !self.no_draft,
        }
    }
}

/// What is told before the remote is fetched.
pub fn fetching(options: &SubmitOptions) -> (r: String)
    ensures
        r@ == "fetching "@ + options@.remote,
{
    "fetching ".to_owned().concat(options.remote.as_str())
}

} // verus!

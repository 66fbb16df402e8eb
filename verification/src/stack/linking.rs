//! Making the pull requests of a published stack a stack on GitHub.

use crate::integrations::gh_stack::{
    done_result, link_args, reconcile_and_link, reconciled, PullRequestMembership,
};
use crate::integrations::github::{OpenPullRequest, OpenPullRequestView};
use crate::integrations::runner::{CommandRunner, Recorded};
use crate::order::views;
use crate::stack::publish::{
    advanced, all_opened, event_fits, fill, filled, head_branches, heads, pr_views,
    publication_well, ActionView, EventView, Publication, PublicationView, Stage,
};
use crate::text::{texts, Text};
use vstd::prelude::*;

verus! {

/// What is linked: head branches on a base, in a repository on GitHub that a remote here
/// names, with the pull requests that were there and all that are to be in the stack.
#[derive(Debug, PartialEq, Eq)]
pub struct StackLink {
    pub repo: String,
    pub github_repo: String,
    pub remote: String,
    pub base: String,
    pub branches: Vec<String>,
    pub existing: Vec<u64>,
    pub desired: Vec<u64>,
}

/// What a `StackLink` holds.
#[verifier::ext_equal]
pub struct StackLinkView {
    pub repo: Text,
    pub github_repo: Text,
    pub remote: Text,
    pub base: Text,
    pub branches: Seq<Text>,
    pub existing: Seq<u64>,
    pub desired: Seq<u64>,
}

impl View for StackLink {
    type V = StackLinkView;

    open spec fn view(&self) -> StackLinkView {
        StackLinkView {
            repo: self.repo@,
            github_repo: self.github_repo@,
            remote: self.remote@,
            base: self.base@,
            branches: texts(self.branches@),
            existing: self.existing@,
            desired: self.desired@,
        }
    }
}

/// The numbers of the pull requests that are there.
pub open spec fn known_numbers(known: Seq<Option<OpenPullRequestView>>) -> Seq<u64>
    decreases known.len(),
{
    if known.len() == 0 {
        Seq::empty()
    } else {
        let before = known_numbers(known.drop_last());
        match known.last() {
            Some(pr) => before.push(pr.number),
            None => before,
        }
    }
}

/// The numbers of pull requests.
pub open spec fn numbers(prs: Seq<OpenPullRequestView>) -> Seq<u64> {
    prs.map_values(|pr: OpenPullRequestView| pr.number)
}

/// What is linked of a published stack: the head branches of all its commits, on the base
/// that the stack sits on, in the fork that it was published to.
pub open spec fn stack_link_of(state: PublicationView) -> StackLinkView {
    StackLinkView {
        repo: state.plan.options.repo,
        github_repo: state.plan.fork,
        remote: state.plan.options.remote,
        base: state.plan.options.base,
        branches: heads(state.plan.commits),
        existing: known_numbers(state.known),
        desired: numbers(filled(state.known, state.created)),
    }
}

/// The numbers of the pull requests that are there.
fn existing_numbers(known: &Vec<Option<OpenPullRequest>>) -> (r: Vec<u64>)
    ensures
        r@ == known_numbers(pr_views(known@)),
{
    let ghost all = pr_views(known@);
    let mut r: Vec<u64> = Vec::new();
    let mut i: usize = 0;
    assert(all.take(0) =~= Seq::<Option<OpenPullRequestView>>::empty());
    while i < known.len()
        invariant
            i <= known.len(),
            all == pr_views(known@),
            r@ == known_numbers(all.take(i as int)),
        decreases known.len() - i,
    {
        assert(all.take(i + 1).drop_last() =~= all.take(i as int));
        assert(all.take(i + 1).last() == all[i as int]);
        match &known[i] {
            Some(pr) => {
                r.push(pr.number);
            },
            None => {},
        }
        i = i + 1;
    }
    assert(all.take(all.len() as int) =~= all);
    r
}

/// Computes `stack_link_of`.
pub fn stack_link(state: &Publication) -> (r: StackLink)
    requires
        publication_well(state@),
        all_opened(state@.stage),
    ensures
        r@ == stack_link_of(state@),
{
    let prs = fill(&state.known, &state.created);
    let ghost all = views(prs@);
    let mut desired: Vec<u64> = Vec::new();
    let mut i: usize = 0;
    while i < prs.len()
        invariant
            i <= prs.len(),
            all == views(prs@),
            desired.len() == i,
            forall|j: int| 0 <= j < i ==> #[trigger] desired@[j] == numbers(all)[j],
        decreases prs.len() - i,
    {
        desired.push(prs[i].number);
        i = i + 1;
    }
    assert(desired@ =~= numbers(all));
    StackLink {
        repo: state.plan.options.repo.clone(),
        github_repo: state.plan.fork.clone(),
        remote: state.plan.options.remote.clone(),
        base: state.plan.options.base.clone(),
        branches: head_branches(&state.plan.commits),
        existing: existing_numbers(&state.known),
        desired,
    }
}

/// Makes pull requests a stack on GitHub. What they were stacked as before is taken apart
/// first where it stands in the way.
pub fn link_stack<R: CommandRunner>(runner: &mut Recorded<R>, link: &StackLink) -> (r: Result<
    (),
    String,
>)
    ensures
        old(runner).history().is_prefix_of(final(runner).history()),
        reconciled(
            final(runner).history().skip(old(runner).history().len() as int),
            link@.repo,
            link@.github_repo,
            link_args(link@.remote, link@.base, link@.branches),
            link@.existing,
            link@.desired.to_set(),
            done_result(r),
        ),
{
    reconcile_and_link(
        runner,
        link.repo.as_str(),
        link.github_repo.as_str(),
        link.remote.as_str(),
        link.base.as_str(),
        &link.branches,
        PullRequestMembership { existing: &link.existing, desired: &link.desired },
    )
}

/// A publication asks for the pull requests to be linked once they are as they are to be,
/// and is finished only when that is done.
pub proof fn law_publishing_links(state: PublicationView)
    requires
        state.stage == Stage::Editing,
    ensures
        advanced(state, EventView::Edited) matches Ok((next, output)) && next.stage
            == Stage::Linking && output.action == ActionView::Link(stack_link_of(next)),
        forall|waiting: PublicationView, event: EventView| #[trigger]
            event_fits(waiting, event) && (advanced(waiting, event) matches Ok((next, _))
                && next.stage == Stage::Finished) ==> waiting.stage == Stage::Linking
                && event is Linked,
{
}

/// Every commit of a published stack is linked by its head branch and has its pull request
/// in the stack, and so has each pull request that was there before.
pub proof fn law_published_stacks_are_linked(state: PublicationView)
    requires
        publication_well(state),
        all_opened(state.stage),
    ensures
        ({
            let link = stack_link_of(state);
            let n = state.plan.commits.len();
            &&& link.branches.len() == n
            &&& link.desired.len() == n
            &&& forall|i: int|
                0 <= i < n ==> {
                    &&& (#[trigger] link.branches[i]) == heads(state.plan.commits)[i]
                    &&& link.desired[i] == filled(state.known, state.created)[i].number
                }
            &&& forall|number: u64| #[trigger]
                link.existing.contains(number) ==> link.desired.contains(number)
        }),
{
    let link = stack_link_of(state);
    assert forall|number: u64| #[trigger]
        link.existing.contains(number) implies link.desired.contains(number) by {
        lemma_known_number(state.known, number);
        let i = choose|i: int|
            0 <= i < state.known.len() && (#[trigger] state.known[i]) is Some
                && state.known[i]->0.number == number;
        assert(filled(state.known, state.created)[i] == state.known[i]->0);
        assert(link.desired[i] == number);
    }
}

/// A known number is that of a pull request that is there.
proof fn lemma_known_number(known: Seq<Option<OpenPullRequestView>>, number: u64)
    requires
        known_numbers(known).contains(number),
    ensures
        exists|i: int|
            0 <= i < known.len() && (#[trigger] known[i]) is Some && known[i]->0.number == number,
    decreases known.len(),
{
    if known.len() > 0 {
        let before = known_numbers(known.drop_last());
        if known.last() is Some && known.last()->0.number == number {
            assert(known[known.len() - 1] is Some);
        } else {
            let k = choose|k: int|
                0 <= k < known_numbers(known).len() && known_numbers(known)[k] == number;
            assert(before[k] == number);
            lemma_known_number(known.drop_last(), number);
            let i = choose|i: int|
                0 <= i < known.len() - 1 && (#[trigger] known.drop_last()[i]) is Some
                    && known.drop_last()[i]->0.number == number;
            assert(known[i] is Some);
        }
    }
}

} // verus!

//! What publishing a stack comes to.

use crate::integrations::github::{CreateView, EditView, LinkView, OpenPullRequestView};
use crate::number::decimal;
use crate::split::joined;
use crate::stack::linking::{known_numbers, stack_link_of};
use crate::stack::publish::{
    advanced, all_opened, begin, description, edits, entries, event_fits, filled, first_output,
    lacking, law_only_stale_pull_requests_change, law_stale_pull_requests_change, links_of,
    matched, pr_of, publication_well, requests, ActionView, EventView, PublicationView, Stage,
};
use crate::stack::submit::{table, table_lines, PlanView, StackCommitView};
use crate::text::Text;
use vstd::prelude::*;

verus! {

/// A text is the table of a stack: a line for each commit, the last one first, with the
/// number of its pull request and its subject, and an arrow at one of the branches.
pub open spec fn is_stack_table(
    text: Text,
    commits: Seq<StackCommitView>,
    prs: Seq<OpenPullRequestView>,
    branch: Text,
) -> bool {
    exists|lines: Seq<Text>|
        {
            &&& text == #[trigger] joined(lines, "\n"@)
            &&& lines.len() == commits.len() + 5
            &&& lines[0] == ""@
            &&& lines[1] == "---"@
            &&& lines[2] == "Stack (top to bottom):"@
            &&& lines[commits.len() as int + 3] == "---"@
            &&& lines[commits.len() as int + 4] == ""@
            &&& forall|i: int|
                #![trigger commits[i]]
                0 <= i < commits.len() ==> lines[commits.len() + 2 - i] == (if commits[i].branch
                    == branch {
                    "- -> #"@
                } else {
                    "-  #"@
                }) + decimal(prs[i].number as nat) + " "@ + commits[i].subject
        }
}

/// A text describes the pull request of a commit: the table of the stack stands before the
/// commit's own text.
pub open spec fn describes(
    text: Text,
    commits: Seq<StackCommitView>,
    prs: Seq<OpenPullRequestView>,
    i: int,
) -> bool {
    exists|front: Text|
        text == #[trigger] (front + commits[i].body) && is_stack_table(
            front,
            commits,
            prs,
            commits[i].branch,
        )
}

proof fn lemma_table(commits: Seq<StackCommitView>, prs: Seq<OpenPullRequestView>, branch: Text)
    requires
        prs.len() == commits.len(),
    ensures
        is_stack_table(table(entries(commits, prs), branch), commits, prs, branch),
{
    let rows = entries(commits, prs);
    let lines = table_lines(rows, branch);
    assert(table(rows, branch) == joined(lines, "\n"@));
    assert forall|i: int| #![trigger commits[i]] 0 <= i < commits.len() implies lines[commits.len()
        + 2 - i] == (if commits[i].branch == branch {
        "- -> #"@
    } else {
        "-  #"@
    }) + decimal(prs[i].number as nat) + " "@ + commits[i].subject by {
        assert(rows.reverse()[commits.len() - 1 - i] == rows[i]);
        reveal_strlit("- ");
        reveal_strlit("->");
        reveal_strlit("");
        reveal_strlit(" ");
        reveal_strlit("#");
        reveal_strlit("- -> #");
        reveal_strlit("-  #");
        assert(lines[commits.len() + 2 - i] =~= (if commits[i].branch == branch {
            "- -> #"@
        } else {
            "-  #"@
        }) + decimal(prs[i].number as nat) + " "@ + commits[i].subject);
    }
}

/// After publishing, every commit's pull request has the commit's subject for its title and
/// the table of the stack followed by the commit's own text for its description: it is
/// changed to that, or had it before. Nothing else is changed, and no change changes
/// nothing.
pub proof fn law_published_descriptions(
    state: PublicationView,
    created: Seq<OpenPullRequestView>,
    i: int,
)
    requires
        publication_well(state),
        event_fits(state, EventView::Created(created)),
        0 <= i < state.plan.commits.len(),
    ensures
        advanced(state, EventView::Created(created)) matches Ok((next, output)) && next.stage
            == Stage::Editing && (output.action matches ActionView::Edit(all) && {
            let commits = state.plan.commits;
            let prs = filled(state.known, created);
            &&& exists|text: Text| #[trigger]
                describes(text, commits, prs, i) && (all.contains(
                    EditView { id: prs[i].id, title: commits[i].subject, body: text },
                ) || prs[i].title == commits[i].subject && prs[i].body == text)
            &&& forall|e: int|
                0 <= e < all.len() ==> exists|j: int|
                    #![trigger commits[j]]
                    0 <= j < commits.len() && (#[trigger] all[e]).id == prs[j].id && all[e].title
                        == commits[j].subject && describes(all[e].body, commits, prs, j) && (
                    all[e].title != prs[j].title || all[e].body != prs[j].body)
        }),
{
    let commits = state.plan.commits;
    let prs = filled(state.known, created);
    let all = edits(commits, prs, commits.len());
    let text = description(commits, prs, i);
    lemma_description(commits, prs, i);
    if prs[i].title != commits[i].subject || prs[i].body != text {
        law_stale_pull_requests_change(commits, prs, commits.len(), i);
    }
    assert forall|e: int| 0 <= e < all.len() implies exists|j: int|
        #![trigger commits[j]]
        0 <= j < commits.len() && (#[trigger] all[e]).id == prs[j].id && all[e].title
            == commits[j].subject && describes(all[e].body, commits, prs, j) && (all[e].title
            != prs[j].title || all[e].body != prs[j].body) by {
        law_only_stale_pull_requests_change(commits, prs, commits.len(), e);
        let j = choose|j: int|
            #![trigger commits[j]]
            0 <= j < commits.len() && all[e] == (EditView {
                id: prs[j].id,
                title: commits[j].subject,
                body: description(commits, prs, j),
            }) && (prs[j].title != commits[j].subject || prs[j].body != description(
                commits,
                prs,
                j,
            ));
        lemma_description(commits, prs, j);
        assert(commits[j] == commits[j]);
    }
}

proof fn lemma_description(commits: Seq<StackCommitView>, prs: Seq<OpenPullRequestView>, i: int)
    requires
        prs.len() == commits.len(),
        0 <= i < commits.len(),
    ensures
        describes(description(commits, prs, i), commits, prs, i),
{
    let front = table(entries(commits, prs), commits[i].branch);
    lemma_table(commits, prs, commits[i].branch);
    assert(description(commits, prs, i) == front + commits[i].body);
}

/// The description of a commit's pull request ends with the commit's own text.
pub proof fn law_descriptions_end_with_the_text(
    text: Text,
    commits: Seq<StackCommitView>,
    prs: Seq<OpenPullRequestView>,
    i: int,
)
    requires
        describes(text, commits, prs, i),
    ensures
        commits[i].body.is_suffix_of(text),
{
    let front = choose|front: Text|
        text == #[trigger] (front + commits[i].body) && is_stack_table(
            front,
            commits,
            prs,
            commits[i].branch,
        );
    assert(text.subrange(text.len() - commits[i].body.len(), text.len() as int)
        =~= commits[i].body);
}

/// The pull request that is opened for a commit.
spec fn opened_for(commit: StackCommitView, draft: bool) -> CreateView {
    CreateView {
        base: "fs-base/"@ + commit.branch,
        head: "fs-head/"@ + commit.branch,
        title: commit.subject,
        body: commit.body,
        draft,
    }
}

proof fn lemma_requests(
    commits: Seq<StackCommitView>,
    known: Seq<Option<OpenPullRequestView>>,
    draft: bool,
    n: nat,
)
    ensures
        requests(commits, known, draft, n).len() == lacking(known, n),
    decreases n,
{
    if n > 0 {
        lemma_requests(commits, known, draft, (n - 1) as nat);
    }
}

proof fn lemma_request_for(
    commits: Seq<StackCommitView>,
    known: Seq<Option<OpenPullRequestView>>,
    draft: bool,
    n: nat,
    i: int,
)
    requires
        0 <= i < n,
        known[i] is None,
    ensures
        lacking(known, i as nat) < requests(commits, known, draft, n).len(),
        requests(commits, known, draft, n)[lacking(known, i as nat) as int] == opened_for(
            commits[i],
            draft,
        ),
    decreases n,
{
    lemma_requests(commits, known, draft, (n - 1) as nat);
    if i < n - 1 {
        lemma_request_for(commits, known, draft, (n - 1) as nat, i);
    }
}

proof fn lemma_request_from(
    commits: Seq<StackCommitView>,
    known: Seq<Option<OpenPullRequestView>>,
    draft: bool,
    n: nat,
    k: int,
) -> (i: int)
    requires
        0 <= k < requests(commits, known, draft, n).len(),
    ensures
        0 <= i < n,
        known[i] is None,
        requests(commits, known, draft, n)[k] == opened_for(commits[i], draft),
    decreases n,
{
    let before = requests(commits, known, draft, (n - 1) as nat);
    if k < before.len() {
        lemma_request_from(commits, known, draft, (n - 1) as nat, k)
    } else {
        n - 1
    }
}

/// A pull request is asked for and is the one that is opened in its place.
pub open spec fn answered(
    all: Seq<CreateView>,
    created: Seq<OpenPullRequestView>,
    request: CreateView,
    pr: OpenPullRequestView,
) -> bool {
    exists|k: int| 0 <= k < all.len() && #[trigger] all[k] == request && created[k] == pr
}

/// A pull request is asked for from the branch of a commit that has none.
pub open spec fn for_a_lacking_one(
    request: CreateView,
    commits: Seq<StackCommitView>,
    known: Seq<Option<OpenPullRequestView>>,
) -> bool {
    exists|j: int|
        #![trigger commits[j]]
        0 <= j < commits.len() && known[j] is None && request.head == "fs-head/"@
            + commits[j].branch
}

/// For each commit without a pull request one is asked for, from its own branch onto that of
/// its parent, with its subject and its text, and as a draft where that is wanted; the pull
/// request that is opened for it is the commit's from then on. None is asked for where there
/// is one, and that stays the commit's.
pub proof fn law_opened_pull_requests(
    state: PublicationView,
    created: Seq<OpenPullRequestView>,
    i: int,
)
    requires
        publication_well(state),
        state.stage == Stage::Pushing,
        0 <= i < state.plan.commits.len(),
    ensures
        advanced(state, EventView::Pushed) matches Ok((next, output)) && next == (PublicationView {
            stage: Stage::Creating,
            ..state
        }) && (output.action matches ActionView::Create { repository_id, requests: all } && {
            let commits = state.plan.commits;
            &&& repository_id == state.repository_id
            &&& state.known[i] matches Some(pr) ==> filled(state.known, created)[i] == pr
            &&& state.known[i] is None ==> answered(
                all,
                created,
                CreateView {
                    base: "fs-base/"@ + commits[i].branch,
                    head: "fs-head/"@ + commits[i].branch,
                    title: commits[i].subject,
                    body: commits[i].body,
                    draft: state.plan.options.draft,
                },
                filled(state.known, created)[i],
            )
            &&& forall|k: int|
                0 <= k < all.len() ==> for_a_lacking_one(#[trigger] all[k], commits, state.known)
            &&& event_fits(next, EventView::Created(created)) <==> created.len() >= all.len()
        }),
{
    let commits = state.plan.commits;
    let draft = state.plan.options.draft;
    lemma_requests(commits, state.known, draft, commits.len());
    let all = requests(commits, state.known, draft, commits.len());
    if state.known[i] is None {
        lemma_request_for(commits, state.known, draft, commits.len(), i);
        assert(all[lacking(state.known, i as nat) as int] == opened_for(commits[i], draft));
    }
    assert forall|k: int| 0 <= k < all.len() implies for_a_lacking_one(
        #[trigger] all[k],
        commits,
        state.known,
    ) by {
        let j = lemma_request_from(commits, state.known, draft, commits.len(), k);
        assert(all[k].head == "fs-head/"@ + commits[j].branch);
    }
}

/// A publication begins with asking for the pull requests of all its head branches.
pub proof fn law_publications_begin_with_discovery(plan: PlanView, i: int)
    requires
        0 <= i < plan.commits.len(),
    ensures
        begin(plan).plan == plan,
        begin(plan).stage == Stage::Discovery,
        publication_well(begin(plan)),
        first_output(plan).action matches ActionView::Discover(all) && all.len()
            == plan.commits.len() && all[i] == "fs-head/"@ + plan.commits[i].branch,
{
}

proof fn lemma_matched(
    commits: Seq<StackCommitView>,
    by_head: Map<Text, OpenPullRequestView>,
    n: nat,
)
    ensures
        match matched(commits, by_head, n) {
            Ok(known) => known.len() == n && forall|i: int|
                0 <= i < n ==> (#[trigger] known[i]) == pr_of(commits, by_head, i) && (
                known[i] matches Some(pr) ==> pr.base_ref_name == "fs-base/"@ + commits[i].branch),
            Err(_) => exists|i: int|
                0 <= i < n && (pr_of(commits, by_head, i) matches Some(pr) && pr.base_ref_name
                    != "fs-base/"@ + (#[trigger] commits[i]).branch),
        },
    decreases n,
{
    if n > 0 {
        lemma_matched(commits, by_head, (n - 1) as nat);
        match matched(commits, by_head, (n - 1) as nat) {
            Ok(done) => {
                assert(commits[n - 1] == commits[n - 1]);
                match matched(commits, by_head, n) {
                    Ok(known) => {
                        assert forall|i: int| 0 <= i < n implies (#[trigger] known[i]) == pr_of(
                            commits,
                            by_head,
                            i,
                        ) && (known[i] matches Some(pr) ==> pr.base_ref_name == "fs-base/"@
                            + commits[i].branch) by {
                            if i < n - 1 {
                                assert(known[i] == done[i]);
                            }
                        }
                    },
                    Err(_) => {},
                }
            },
            Err(_) => {
                let i = choose|i: int|
                    0 <= i < n - 1 && (pr_of(commits, by_head, i) matches Some(pr)
                        && pr.base_ref_name != "fs-base/"@ + (#[trigger] commits[i]).branch);
                assert(commits[i] == commits[i]);
            },
        }
    }
}

/// Where the commits of a stack have branches of their own, each takes over the open pull
/// request of its head branch, if there is one. A pull request that is not onto the base
/// branch of its commit stops the publication, and nothing else does. Identities are
/// recorded next where one is new, and else local branches follow.
pub proof fn law_discovered_pull_requests(
    state: PublicationView,
    repository_id: Text,
    by_head: Map<Text, OpenPullRequestView>,
    i: int,
)
    requires
        forall|a: int, b: int|
            0 <= a < b < state.plan.commits.len() ==> (#[trigger] state.plan.commits[a]).branch != (
            #[trigger] state.plan.commits[b]).branch,
        0 <= i < state.plan.commits.len(),
    ensures
        ({
            let commits = state.plan.commits;
            let head = "fs-head/"@ + commits[i].branch;
            match advanced(state, EventView::Discovered { repository_id, by_head }) {
                Ok((next, output)) => {
                    &&& next.plan == state.plan
                    &&& next.repository_id == repository_id
                    &&& next.known.len() == commits.len()
                    &&& next.known[i] == if by_head.contains_key(head) {
                        Some(by_head[head])
                    } else {
                        None
                    }
                    &&& by_head.contains_key(head) ==> by_head[head].base_ref_name == "fs-base/"@
                        + commits[i].branch
                    &&& (exists|j: int|
                        0 <= j < commits.len() && (#[trigger] commits[j]).identity_added) ==> next.stage
                        == Stage::Rewriting && output.action is Rewrite
                    &&& !(exists|j: int|
                        0 <= j < commits.len() && (#[trigger] commits[j]).identity_added) ==> next.stage
                        == Stage::Syncing && output.action is SyncHeads
                },
                Err(_) => exists|j: int|
                    #![trigger commits[j]]
                    0 <= j < commits.len() && by_head.contains_key("fs-head/"@ + commits[j].branch)
                        && by_head["fs-head/"@ + commits[j].branch].base_ref_name != "fs-base/"@
                        + commits[j].branch,
            }
        }),
{
    let commits = state.plan.commits;
    assert forall|j: int| 0 <= j < commits.len() implies #[trigger] pr_of(commits, by_head, j)
        == if by_head.contains_key("fs-head/"@ + commits[j].branch) {
        Some(by_head["fs-head/"@ + commits[j].branch])
    } else {
        None
    } by {
        assert forall|k: int| 0 <= k < j implies "fs-head/"@ + (#[trigger] commits[k]).branch
            != "fs-head/"@ + commits[j].branch by {
            let a = "fs-head/"@ + commits[k].branch;
            let b = "fs-head/"@ + commits[j].branch;
            if a == b {
                let n = "fs-head/"@.len() as int;
                assert(a.skip(n) =~= commits[k].branch);
                assert(b.skip(n) =~= commits[j].branch);
                assert(commits[k].branch != commits[j].branch);
            }
        }
    }
    lemma_matched(commits, by_head, commits.len());
    match matched(commits, by_head, commits.len()) {
        Ok(known) => {
            assert(known[i] == pr_of(commits, by_head, i));
        },
        Err(_) => {
            let j = choose|j: int|
                0 <= j < commits.len() && (pr_of(commits, by_head, j) matches Some(pr)
                    && pr.base_ref_name != "fs-base/"@ + (#[trigger] commits[j]).branch);
            assert(commits[j] == commits[j]);
        },
    }
}

/// Identities are recorded before local branches follow the commits, these before anything
/// is pushed, and every branch of the plan is pushed, with its commit and nothing besides,
/// before a pull request is opened.
pub proof fn law_publications_push_before_they_open(
    state: PublicationView,
    plan: PlanView,
    i: int,
)
    requires
        0 <= i < state.plan.updates.len(),
    ensures
        advanced(state, EventView::Rewritten(plan)) matches Ok((next, output)) && next == (
        PublicationView { plan, stage: Stage::Syncing, ..state }) && output.action is SyncHeads,
        advanced(state, EventView::HeadsSynced) matches Ok((next, output)) && next == (
        PublicationView { stage: Stage::Pushing, ..state }) && (output.action matches ActionView::Push(
            all,
        ) && all.len() == state.plan.updates.len() && all[i] == (
            state.plan.updates[i].branch,
            state.plan.updates[i].rev,
        )),
        advanced(state, EventView::Pushed) matches Ok((next, output)) && output.action is Create,
        forall|event: EventView| #[trigger]
            event_fits(state, event) ==> match state.stage {
                Stage::Discovery => event is Discovered,
                Stage::Rewriting => event is Rewritten,
                Stage::Syncing => event is HeadsSynced,
                Stage::Pushing => event is Pushed,
                Stage::Creating => event is Created,
                Stage::Editing => event is Edited,
                Stage::Linking => event is Linked,
                Stage::Finished => false,
            },
{
}

proof fn lemma_known_numbers(known: Seq<Option<OpenPullRequestView>>, number: u64)
    ensures
        known_numbers(known).contains(number) <==> exists|i: int|
            0 <= i < known.len() && ((#[trigger] known[i]) matches Some(pr) && pr.number == number),
    decreases known.len(),
{
    if known.len() > 0 {
        let init = known.drop_last();
        lemma_known_numbers(init, number);
        match known.last() {
            Some(pr) => {
                vstd::seq_lib::lemma_seq_contains_after_push(
                    known_numbers(init),
                    pr.number,
                    number,
                );
            },
            None => {},
        }
        if exists|i: int|
            0 <= i < init.len() && ((#[trigger] init[i]) matches Some(pr) && pr.number == number) {
            let i = choose|i: int|
                0 <= i < init.len() && ((#[trigger] init[i]) matches Some(pr) && pr.number
                    == number);
            assert(known[i] == init[i]);
        }
        if exists|i: int|
            0 <= i < known.len() && ((#[trigger] known[i]) matches Some(pr) && pr.number
                == number) {
            let i = choose|i: int|
                0 <= i < known.len() && ((#[trigger] known[i]) matches Some(pr) && pr.number
                    == number);
            if i < init.len() {
                assert(init[i] == known[i]);
            }
        }
        assert(known[known.len() - 1] == known.last());
    }
}

/// What is linked and shown of a publication: for each commit its head branch with the
/// number and the address of its pull request, in the order of the stack; the stacks of just
/// the pull requests that were there before are looked up.
pub proof fn law_published_stacks_are_shown(state: PublicationView, i: int, number: u64)
    requires
        publication_well(state),
        all_opened(state.stage),
        0 <= i < state.plan.commits.len(),
    ensures
        ({
            let link = stack_link_of(state);
            let pr = filled(state.known, state.created)[i];
            &&& link.repo == state.plan.options.repo
            &&& link.github_repo == state.plan.fork
            &&& link.remote == state.plan.options.remote
            &&& link.base == state.plan.options.base
            &&& link.branches.len() == state.plan.commits.len()
            &&& link.branches[i] == "fs-head/"@ + state.plan.commits[i].branch
            &&& link.desired.len() == state.plan.commits.len()
            &&& link.desired[i] == pr.number
            &&& link.existing.contains(number) <==> exists|j: int|
                0 <= j < state.known.len() && ((#[trigger] state.known[j]) matches Some(pr)
                    && pr.number == number)
            &&& links_of(state).len() == state.plan.commits.len()
            &&& links_of(state)[i] == (LinkView {
                number: pr.number,
                head_ref_name: "fs-head/"@ + state.plan.commits[i].branch,
                url: pr.url,
            })
        }),
{
    lemma_known_numbers(state.known, number);
}

/// What is said while a stack is published: of each commit whether its pull request was
/// there, by its number, or was opened, by its address, and in the end how many there are.
pub proof fn law_publications_are_reported(
    state: PublicationView,
    created: Seq<OpenPullRequestView>,
    i: int,
)
    requires
        publication_well(state),
        event_fits(state, EventView::Created(created)),
        0 <= i < state.plan.commits.len(),
    ensures
        ({
            let commits = state.plan.commits;
            let prs = filled(state.known, created);
            &&& advanced(state, EventView::Created(created)) matches Ok((_, output))
                && output.reports.len() == commits.len() && output.reports[i]
                == commits[i].branch + (if state.known[i] is Some {
                ": reusing #"@ + decimal(prs[i].number as nat)
            } else {
                ": created "@ + prs[i].url
            })
            &&& advanced(state, EventView::HeadsSynced) matches Ok((_, output)) && output.reports
                == seq!["pushing PR base and head refs"@]
            &&& advanced(state, EventView::Rewritten(state.plan)) matches Ok((_, output))
                && output.reports == seq!["updating local PR head branches"@]
            &&& advanced(state, EventView::Linked) matches Ok((next, output)) && next.stage
                == Stage::Finished && output.action is Finish && output.reports == seq![
                "\n"@ + decimal(commits.len()) + " pull requests in "@ + state.plan.fork + "."@,
            ]
        }),
{
    let commits = state.plan.commits;
    let prs = filled(state.known, created);
    let said = advanced(state, EventView::Created(created))->Ok_0.1.reports;
    assert(said[i] =~= commits[i].branch + (if state.known[i] is Some {
        ": reusing #"@ + decimal(prs[i].number as nat)
    } else {
        ": created "@ + prs[i].url
    }));
}

} // verus!

//! What is said of a plan before it is carried out.

use crate::number::{decimal, to_decimal};
use crate::order::views;
use crate::stack::submit::{
    base_of, head_of, PlanView, StackCommit, StackCommitView, SubmitPlan, IDENTITY_TRAILER,
};
use crate::text::{can_clip, clip, clipped, Text};
use vstd::prelude::*;

verus! {

/// The ids of a stack's commits can be shortened to their first twelve bytes.
pub open spec fn revs_clip(commits: Seq<StackCommitView>) -> bool {
    forall|i: int| 0 <= i < commits.len() ==> can_clip((#[trigger] commits[i]).rev, 12)
}

/// What is said of one commit.
pub open spec fn commit_summary(commit: StackCommitView) -> Text {
    "  "@ + clipped(commit.rev, 12) + "  "@ + commit.branch + " ("@ + head_of(commit.branch)
        + ") <- base "@ + base_of(commit.branch) + (if commit.identity_added {
        "  (new identity)"@
    } else {
        ""@
    }) + "\n                "@ + commit.subject + "\n"@
}

/// What is said of each commit.
pub open spec fn commit_summaries(commits: Seq<StackCommitView>) -> Text
    decreases commits.len(),
{
    if commits.len() == 0 {
        Seq::empty()
    } else {
        commit_summaries(commits.drop_last()) + commit_summary(commits.last())
    }
}

/// What is said of a plan.
pub open spec fn summary_text(plan: PlanView) -> Text {
    "fork:   "@ + plan.fork + "\nstack:  "@ + plan.base_ref + "..HEAD  ("@ + decimal(
        plan.commits.len(),
    ) + " commits)\n\n"@ + commit_summaries(plan.commits)
}

/// What is said of a plan: its fork, its base, and for each commit the branches it
/// is published as.
pub fn print_summary(plan: &SubmitPlan) -> (r: String)
    requires
        revs_clip(plan@.commits),
    ensures
        r@ == summary_text(plan@),
{
    let ghost commits = views(plan.commits@);
    let mut text = "fork:   ".to_owned().concat(plan.fork.as_str()).concat("\nstack:  ").concat(
        plan.base_ref.as_str(),
    ).concat("..HEAD  (").concat(to_decimal(plan.commits.len() as u64).as_str()).concat(
        " commits)\n\n",
    );
    let ghost start = text@;
    let mut i: usize = 0;
    assert(commits.take(0) =~= Seq::<StackCommitView>::empty());
    assert(text@ =~= start + commit_summaries(commits.take(0)));
    while i < plan.commits.len()
        invariant
            i <= plan.commits.len(),
            commits == views(plan.commits@),
            revs_clip(commits),
            text@ == start + commit_summaries(commits.take(i as int)),
        decreases plan.commits.len() - i,
    {
        let step = &plan.commits[i];
        let ghost done = commit_summaries(commits.take(i as int));
        assert(commits.take(i + 1).drop_last() =~= commits.take(i as int));
        assert(commits.take(i + 1).last() == step@);
        assert(commits[i as int] == step@);
        let marker = if step.identity_added {
            "  (new identity)"
        } else {
            ""
        };
        let line = "  ".to_owned().concat(clip(step.rev.as_str(), 12).as_str()).concat("  ").concat(
            step.branch.as_str(),
        ).concat(" (").concat(step.head_branch().as_str()).concat(") <- base ").concat(
            step.base_branch().as_str(),
        ).concat(marker).concat("\n                ").concat(step.subject.as_str()).concat("\n");
        text.append(line.as_str());
        assert(text@ =~= start + (done + line@));
        i = i + 1;
    }
    assert(commits.take(commits.len() as int) =~= commits);
    text
}

/// What would be done for one commit.
pub open spec fn commit_actions(commit: StackCommitView, remote: Text) -> Text {
    (if commit.identity_added {
        "  add "@ + IDENTITY_TRAILER@ + ": "@ + commit.branch + " to "@ + clipped(commit.rev, 12)
            + "\n"@
    } else {
        ""@
    }) + "  create/update local "@ + head_of(commit.branch) + " tracking "@ + remote + "/"@
        + head_of(commit.branch) + "\n  atomically update "@ + base_of(commit.branch) + " and "@
        + head_of(commit.branch) + "\n"@
}

/// What would be done for each commit.
pub open spec fn all_actions(commits: Seq<StackCommitView>, remote: Text) -> Text
    decreases commits.len(),
{
    if commits.len() == 0 {
        Seq::empty()
    } else {
        all_actions(commits.drop_last(), remote) + commit_actions(commits.last(), remote)
    }
}

/// What is said of a plan that is not carried out.
pub open spec fn dry_run_text(plan: PlanView) -> Text {
    summary_text(plan) + "\nDry run. The execute pass would:\n\n"@ + all_actions(
        plan.commits,
        plan.options.remote,
    ) + "\nRe-run with --execute to do it.\n"@
}

/// What would be done for one commit.
fn actions_of(step: &StackCommit, remote: &str) -> (r: String)
    requires
        can_clip(step@.rev, 12),
    ensures
        r@ == commit_actions(step@, remote@),
{
    let first = if step.identity_added {
        "  add ".to_owned().concat(IDENTITY_TRAILER).concat(": ").concat(
            step.branch.as_str(),
        ).concat(" to ").concat(clip(step.rev.as_str(), 12).as_str()).concat("\n")
    } else {
        "".to_owned()
    };
    first.concat("  create/update local ").concat(step.head_branch().as_str()).concat(
        " tracking ",
    ).concat(remote).concat("/").concat(step.head_branch().as_str()).concat(
        "\n  atomically update ",
    ).concat(step.base_branch().as_str()).concat(" and ").concat(step.head_branch().as_str()).concat(
        "\n",
    )
}

/// What is said of a plan that is not carried out: its summary and what would be
/// done.
pub fn print_plan(plan: &SubmitPlan) -> (r: String)
    requires
        revs_clip(plan@.commits),
    ensures
        r@ == dry_run_text(plan@),
{
    let ghost commits = views(plan.commits@);
    let ghost remote = plan.options.remote@;
    let mut text = print_summary(plan).concat("\nDry run. The execute pass would:\n\n");
    let ghost start = text@;
    let mut i: usize = 0;
    assert(commits.take(0) =~= Seq::<StackCommitView>::empty());
    assert(text@ =~= start + all_actions(commits.take(0), remote));
    while i < plan.commits.len()
        invariant
            i <= plan.commits.len(),
            commits == views(plan.commits@),
            remote == plan.options.remote@,
            revs_clip(commits),
            text@ == start + all_actions(commits.take(i as int), remote),
        decreases plan.commits.len() - i,
    {
        let step = &plan.commits[i];
        let ghost done = all_actions(commits.take(i as int), remote);
        assert(commits.take(i + 1).drop_last() =~= commits.take(i as int));
        assert(commits.take(i + 1).last() == step@);
        assert(commits[i as int] == step@);
        let actions = actions_of(step, plan.options.remote.as_str());
        text.append(actions.as_str());
        assert(text@ =~= start + (done + actions@));
        i = i + 1;
    }
    assert(commits.take(commits.len() as int) =~= commits);
    text.concat("\nRe-run with --execute to do it.\n")
}

} // verus!

//! What becomes of refs, messages and names when a stack is published.

use crate::integrations::github::{create_args, edit_args, list_args, CreateView};
use crate::number::decimal;
use crate::split::joined;
use crate::stack::heads::{head_update, head_updates, tracking_settings, HeadUpdateView};
use crate::stack::identity::{identity, untagged};
use crate::stack::names::{is_separator, last_separator, owner_and_name, without_git};
use crate::stack::object::object_id;
use crate::stack::report::{
    all_actions, commit_actions, commit_summaries, commit_summary, dry_run_text, summary_text,
};
use crate::stack::rewrite::{
    head_moves, moved_refs, replacements, step_of, stepped, RefMoveView, RewritingView, StepView,
};
use crate::stack::submit::{PlanView, StackCommitView};
use crate::text::{clipped, is_space, trim, trim_end, trim_start, Text};
use crate::ui::todo_laws::lemma_lines_joined;
use vstd::prelude::*;

verus! {

/// What becomes of the local branch of a commit. It is left alone exactly where it is at the
/// commit. It is brought there where it does not exist, or is where the remote has it, and
/// no working tree has it checked out. In every other case publishing is refused.
pub proof fn law_local_branches_are_not_lost(
    commit: StackCommitView,
    remote: Text,
    checked_out: Set<Text>,
    refs: Map<Text, Text>,
    id: Text,
)
    requires
        object_id(commit.rev) == Ok::<Text, Text>(id),
    ensures
        ({
            let here = "refs/heads/fs-head/"@ + commit.branch;
            let far = "refs/remotes/"@ + remote + "/fs-head/"@ + commit.branch;
            let there = refs.contains_key(here) && refs[here] == id;
            let safe = !checked_out.contains(here) && (!refs.contains_key(here)
                || refs.contains_key(far) && refs[far] == refs[here]);
            match head_update(commit, remote, checked_out, refs) {
                Ok(None) => there,
                Ok(Some(update)) => !there && safe && update == (HeadUpdateView {
                    name: here,
                    before: if refs.contains_key(here) {
                        Some(refs[here])
                    } else {
                        None
                    },
                    wanted: id,
                }),
                Err(_) => !there && !safe,
            }
        }),
{
    reveal_strlit("refs/heads/");
    reveal_strlit("fs-head/");
    reveal_strlit("refs/heads/fs-head/");
    reveal_strlit("/");
    reveal_strlit("/fs-head/");
    assert("refs/heads/"@ + ("fs-head/"@ + commit.branch) =~= "refs/heads/fs-head/"@
        + commit.branch);
    assert("refs/remotes/"@ + remote + "/"@ + ("fs-head/"@ + commit.branch)
        =~= "refs/remotes/"@ + remote + "/fs-head/"@ + commit.branch);
}

/// The updates of a stack are those of all its commits, and one commit that is refused stops
/// them all.
pub proof fn law_all_local_branches_are_brought(
    commits: Seq<StackCommitView>,
    remote: Text,
    checked_out: Set<Text>,
    refs: Map<Text, Text>,
    i: int,
)
    requires
        0 <= i < commits.len(),
    ensures
        match head_updates(commits, remote, checked_out, refs) {
            Ok(updates) => match head_update(commits[i], remote, checked_out, refs) {
                Ok(Some(update)) => updates.contains(update),
                Ok(None) => true,
                Err(_) => false,
            },
            Err(_) => exists|j: int|
                0 <= j < commits.len() && head_update(
                    #[trigger] commits[j],
                    remote,
                    checked_out,
                    refs,
                ) is Err,
        },
    decreases commits.len(),
{
    let init = commits.drop_last();
    assert(commits[commits.len() - 1] == commits.last());
    if init.len() > 0 {
        if i < init.len() {
            law_all_local_branches_are_brought(init, remote, checked_out, refs, i);
        } else {
            law_all_local_branches_are_brought(init, remote, checked_out, refs, 0);
        }
        match head_updates(init, remote, checked_out, refs) {
            Err(_) => {
                let j = choose|j: int|
                    0 <= j < init.len() && head_update(
                        #[trigger] init[j],
                        remote,
                        checked_out,
                        refs,
                    ) is Err;
                assert(commits[j] == init[j]);
            },
            Ok(done) => {
                match head_update(commits.last(), remote, checked_out, refs) {
                    Ok(Some(update)) => {
                        let all = done.push(update);
                        assert(all[done.len() as int] == update);
                        if i < init.len() {
                            match head_update(commits[i], remote, checked_out, refs) {
                                Ok(Some(one)) => {
                                    assert(all[done.index_of(one)] == one);
                                },
                                _ => {},
                            }
                        }
                    },
                    _ => {},
                }
            },
        }
    } else {
        assert(head_updates(init, remote, checked_out, refs) == Ok::<Seq<HeadUpdateView>, Text>(
            Seq::empty(),
        ));
        match head_update(commits.last(), remote, checked_out, refs) {
            Ok(Some(update)) => {
                assert(Seq::<HeadUpdateView>::empty().push(update)[0] == update);
            },
            _ => {},
        }
    }
}

/// The local branch of every commit tracks the branch of that name at the remote.
pub proof fn law_local_branches_track_the_remote(
    commits: Seq<StackCommitView>,
    remote: Text,
    i: int,
)
    requires
        0 <= i < commits.len(),
    ensures
        tracking_settings(commits, remote).len() == 2 * commits.len(),
        tracking_settings(commits, remote)[2 * i] == (
            "branch.fs-head/"@ + commits[i].branch + ".remote"@,
            remote,
        ),
        tracking_settings(commits, remote)[2 * i + 1] == (
            "branch.fs-head/"@ + commits[i].branch + ".merge"@,
            "refs/heads/fs-head/"@ + commits[i].branch,
        ),
    decreases commits.len(),
{
    reveal_with_fuel(tracking_settings, 2);
    if commits.len() > 1 {
        let init = commits.drop_last();
        if i < init.len() {
            law_local_branches_track_the_remote(init, remote, i);
        } else {
            law_local_branches_track_the_remote(init, remote, 0);
        }
    }
    let branch = commits.last().branch;
    reveal_strlit("branch.");
    reveal_strlit("fs-head/");
    reveal_strlit("branch.fs-head/");
    reveal_strlit("refs/heads/");
    reveal_strlit("refs/heads/fs-head/");
    assert("branch."@ + ("fs-head/"@ + branch) + ".remote"@ =~= "branch.fs-head/"@ + branch
        + ".remote"@);
    assert("branch."@ + ("fs-head/"@ + branch) + ".merge"@ =~= "branch.fs-head/"@ + branch
        + ".merge"@);
    assert("refs/heads/"@ + ("fs-head/"@ + branch) =~= "refs/heads/fs-head/"@ + branch);
}

/// A commit is made anew exactly where its parent or its message changes, and then on the
/// new parent. Its message keeps all its text: it stays as it is where it gives an
/// identity, and else the identity is added behind it.
pub proof fn law_rewriting_keeps_messages(
    commit: StackCommitView,
    new_parent: Option<Text>,
)
    ensures
        match step_of(commit, new_parent) {
            Ok(step) => {
                let parent = match new_parent {
                    Some(parent) => parent,
                    None => commit.parent,
                };
                &&& step.parent == parent
                &&& step.message == match identity(commit.message)->Ok_0 {
                    Some(_) => commit.message,
                    None => trim_end(commit.message) + "\n\nfs-branch: "@ + commit.branch + "\n"@,
                }
                &&& identity(commit.message) is Ok
                &&& step.text is None <==> parent == commit.parent && step.message
                    == commit.message
                &&& step.text matches Some(text) ==> text == trim_end(step.message) + "\n"@
            },
            Err(_) => identity(commit.message) is Err,
        },
{
    reveal_strlit("\n\n");
    reveal_strlit("fs-branch");
    reveal_strlit(": ");
    reveal_strlit("\n\nfs-branch: ");
    let m = trim_end(commit.message);
    assert(m + "\n\n"@ + "fs-branch"@ + ": "@ + commit.branch + "\n"@ =~= m + "\n\nfs-branch: "@
        + commit.branch + "\n"@);
}

/// A commit that is made anew keeps its branch and its subject, and takes the id, the parent
/// and the message that it is made with. Its body is what the message says behind its first
/// line, without the identity.
pub proof fn law_rewritten_commits_keep_their_text(
    commit: StackCommitView,
    step: StepView,
    rev: Text,
    lines: Seq<Text>,
)
    requires
        lines.len() > 0,
        forall|i: int|
            0 <= i < lines.len() ==> !(#[trigger] lines[i]).contains('\n') && !lines[i].contains(
                '\r',
            ),
        step.message == joined(lines, "\n"@) + "\n"@,
    ensures
        ({
            let next = stepped(commit, step, rev);
            &&& next.rev == rev
            &&& next.parent == step.parent
            &&& next.message == step.message
            &&& next.branch == commit.branch
            &&& next.subject == commit.subject
            &&& next.identity_added == commit.identity_added
            &&& next.body == untagged(joined(lines.skip(1), "\n"@))
        }),
{
    lemma_lines_joined(lines);
    assert(lines.drop_first() =~= lines.skip(1));
}

/// The last of some replacements of a commit that changes it counts.
pub open spec fn replaced_by(replaced: Seq<(Text, Text)>, before: Text, after: Text) -> bool {
    exists|i: int|
        0 <= i < replaced.len() && (#[trigger] replaced[i]).0 != replaced[i].1 && object_id(
            replaced[i].0,
        ) == Ok::<Text, Text>(before) && object_id(replaced[i].1) == Ok::<Text, Text>(after)
            && forall|j: int|
            i < j < replaced.len() && (#[trigger] replaced[j]).0 != replaced[j].1 ==> object_id(
                replaced[j].0,
            ) != Ok::<Text, Text>(before)
}

proof fn lemma_replacements(replaced: Seq<(Text, Text)>, before: Text)
    requires
        replacements(replaced) is Ok,
    ensures
        replacements(replaced)->Ok_0.contains_key(before) ==> replaced_by(
            replaced,
            before,
            replacements(replaced)->Ok_0[before],
        ),
        !replacements(replaced)->Ok_0.contains_key(before) ==> forall|j: int|
            0 <= j < replaced.len() && (#[trigger] replaced[j]).0 != replaced[j].1 ==> object_id(
                replaced[j].0,
            ) != Ok::<Text, Text>(before),
    decreases replaced.len(),
{
    if replaced.len() > 0 {
        let init = replaced.drop_last();
        let last = replaced.last();
        let n = replaced.len() - 1;
        lemma_replacements(init, before);
        assert(replaced[n] == last);
        let new = replacements(replaced)->Ok_0;
        if last.0 != last.1 && object_id(last.0) == Ok::<Text, Text>(before) {
            assert(replaced[n].0 != replaced[n].1);
        } else if replacements(init)->Ok_0.contains_key(before) {
            let after = replacements(init)->Ok_0[before];
            let i = choose|i: int|
                0 <= i < init.len() && (#[trigger] init[i]).0 != init[i].1 && object_id(init[i].0)
                    == Ok::<Text, Text>(before) && object_id(init[i].1) == Ok::<Text, Text>(after)
                    && forall|j: int|
                    i < j < init.len() && (#[trigger] init[j]).0 != init[j].1 ==> object_id(
                        init[j].0,
                    ) != Ok::<Text, Text>(before);
            assert(replaced[i] == init[i]);
            assert forall|j: int|
                i < j < replaced.len() && (#[trigger] replaced[j]).0 != replaced[j].1 implies
                object_id(replaced[j].0) != Ok::<Text, Text>(before) by {
                if j < n {
                    assert(init[j] == replaced[j]);
                }
            }
        } else {
            assert forall|j: int|
                0 <= j < replaced.len() && (#[trigger] replaced[j]).0 != replaced[j].1 implies
                object_id(replaced[j].0) != Ok::<Text, Text>(before) by {
                if j < n {
                    assert(init[j] == replaced[j]);
                }
            }
        }
    }
}

proof fn lemma_head_moves(
    heads: Seq<(Option<Text>, Option<Text>)>,
    new: Map<Text, Text>,
    move_of: RefMoveView,
)
    ensures
        head_moves(heads, new).contains(move_of) <==> heads.contains(
            (Some(move_of.name), Some(move_of.before)),
        ) && new.contains_key(move_of.before) && new[move_of.before] == move_of.after,
    decreases heads.len(),
{
    if heads.len() > 0 {
        let init = heads.drop_last();
        let last = heads.last();
        lemma_head_moves(init, new, move_of);
        assert(heads =~= init.push(last));
        vstd::seq_lib::lemma_seq_contains_after_push(
            init,
            last,
            (Some(move_of.name), Some(move_of.before)),
        );
        match last {
            (Some(name), Some(target)) => {
                if new.contains_key(target) {
                    vstd::seq_lib::lemma_seq_contains_after_push(
                        head_moves(init, new),
                        RefMoveView { name, before: target, after: new[target] },
                        move_of,
                    );
                }
            },
            _ => {},
        }
    }
}

/// When commits are made anew every local branch that is at one of them moves to what it
/// became, and no other branch moves. Where no branch is checked out the head moves to the
/// end of the stack, if that is new.
pub proof fn law_branches_move_with_their_commits(
    state: RewritingView,
    heads: Seq<(Option<Text>, Option<Text>)>,
    old_head: Text,
    detached: bool,
    moves: Seq<RefMoveView>,
    name: Text,
    before: Text,
    after: Text,
)
    requires
        moved_refs(state, heads, old_head, detached) == Ok::<Seq<RefMoveView>, Text>(moves),
    ensures
        heads.contains((Some(name), Some(before))) && replaced_by(state.replaced, before, after)
            ==> moves.contains(RefMoveView { name, before, after }),
        moves.contains(RefMoveView { name, before, after }) && name != "HEAD"@ ==> heads.contains(
            (Some(name), Some(before)),
        ) && replaced_by(state.replaced, before, after),
        detached && state.parent is Some && state.parent->0 != old_head ==> {
            &&& object_id(state.parent->0) is Ok
            &&& moves.len() > 0
            &&& moves.last() == (RefMoveView {
                name: "HEAD"@,
                before: old_head,
                after: object_id(state.parent->0)->Ok_0,
            })
        },
        !detached && name == "HEAD"@ && moves.contains(RefMoveView { name, before, after })
            ==> heads.contains((Some(name), Some(before))),
{
    let new = replacements(state.replaced)->Ok_0;
    let one = RefMoveView { name, before, after };
    let own = head_moves(heads, new);
    lemma_head_moves(heads, new, one);
    lemma_replacements(state.replaced, before);
    if replaced_by(state.replaced, before, after) {
        let i = choose|i: int|
            0 <= i < state.replaced.len() && (#[trigger] state.replaced[i]).0
                != state.replaced[i].1 && object_id(state.replaced[i].0) == Ok::<Text, Text>(before)
                && object_id(state.replaced[i].1) == Ok::<Text, Text>(after) && forall|j: int|
                i < j < state.replaced.len() && (#[trigger] state.replaced[j]).0
                    != state.replaced[j].1 ==> object_id(state.replaced[j].0) != Ok::<Text, Text>(
                    before,
                );
        assert(new.contains_key(before));
        let found = new[before];
        let k = choose|k: int|
            0 <= k < state.replaced.len() && (#[trigger] state.replaced[k]).0
                != state.replaced[k].1 && object_id(state.replaced[k].0) == Ok::<Text, Text>(before)
                && object_id(state.replaced[k].1) == Ok::<Text, Text>(found) && forall|j: int|
                k < j < state.replaced.len() && (#[trigger] state.replaced[j]).0
                    != state.replaced[j].1 ==> object_id(state.replaced[j].0) != Ok::<Text, Text>(
                    before,
                );
        if i < k {
            assert(object_id(state.replaced[k].0) != Ok::<Text, Text>(before));
        } else if k < i {
            assert(object_id(state.replaced[i].0) != Ok::<Text, Text>(before));
        }
        assert(found == after);
    }
    if moves != own {
        vstd::seq_lib::lemma_seq_contains_after_push(own, moves.last(), one);
    }
}

/// What is said of a plan tells of every commit: its id, its branches, whether its identity
/// is new, and its subject.
pub proof fn law_summaries_tell_of_every_commit(plan: PlanView, i: int)
    requires
        0 <= i < plan.commits.len(),
    ensures
        ({
            let commit = plan.commits[i];
            let told = "  "@ + clipped(commit.rev, 12) + "  "@ + commit.branch + " (fs-head/"@
                + commit.branch + ") <- base fs-base/"@ + commit.branch + (
            if commit.identity_added {
                "  (new identity)"@
            } else {
                ""@
            }) + "\n                "@ + commit.subject + "\n"@;
            stands_in(summary_text(plan), told) && stands_in(dry_run_text(plan), told)
        }),
        ({
            let commit = plan.commits[i];
            stands_in(
                dry_run_text(plan),
                "  create/update local fs-head/"@ + commit.branch + " tracking "@
                    + plan.options.remote + "/fs-head/"@ + commit.branch
                    + "\n  atomically update fs-base/"@ + commit.branch + " and fs-head/"@
                    + commit.branch + "\n"@,
            )
        }),
        plan.commits[i].identity_added ==> stands_in(
            dry_run_text(plan),
            "  add fs-branch: "@ + plan.commits[i].branch + " to "@ + clipped(
                plan.commits[i].rev,
                12,
            ) + "\n"@,
        ),
{
    let commit = plan.commits[i];
    lemma_summary(plan.commits, i);
    lemma_actions(plan.commits, plan.options.remote, i);
    lemma_summary_words(commit);
    lemma_action_words(commit, plan.options.remote);
    let told = commit_summary(commit);
    let front = "fork:   "@ + plan.fork + "\nstack:  "@ + plan.base_ref + "..HEAD  ("@ + decimal(
        plan.commits.len(),
    ) + " commits)\n\n"@;
    lemma_stands_behind(front, commit_summaries(plan.commits), told);
    let middle = "\nDry run. The execute pass would:\n\n"@;
    let actions = all_actions(plan.commits, plan.options.remote);
    let end = "\nRe-run with --execute to do it.\n"@;
    let s = summary_text(plan);
    lemma_stands_before(s, middle + actions + end, told);
    assert(dry_run_text(plan) =~= s + (middle + actions + end));
    let line = commit_actions(commit, plan.options.remote);
    let base = "  create/update local fs-head/"@ + commit.branch + " tracking "@
        + plan.options.remote + "/fs-head/"@ + commit.branch + "\n  atomically update fs-base/"@
        + commit.branch + " and fs-head/"@ + commit.branch + "\n"@;
    let added = "  add fs-branch: "@ + commit.branch + " to "@ + clipped(commit.rev, 12) + "\n"@;
    lemma_stands_behind(s + middle, actions, line);
    lemma_stands_before(s + middle + actions, end, line);
    if commit.identity_added {
        assert(line =~= added + base);
        lemma_stands_part(dry_run_text(plan), line, Seq::empty(), added, base);
        lemma_stands_part(dry_run_text(plan), line, added, base, Seq::empty());
    } else {
        assert(line =~= base);
    }
}

/// A text stands somewhere in another.
pub open spec fn stands_in(text: Text, part: Text) -> bool {
    exists|front: Text, back: Text| text == #[trigger] (front + part + back)
}

proof fn lemma_stands_behind(front: Text, text: Text, part: Text)
    requires
        stands_in(text, part),
    ensures
        stands_in(front + text, part),
{
    let (a, b) = choose|a: Text, b: Text| text == #[trigger] (a + part + b);
    assert(front + text =~= (front + a) + part + b);
}

proof fn lemma_stands_before(text: Text, back: Text, part: Text)
    requires
        stands_in(text, part),
    ensures
        stands_in(text + back, part),
{
    let (a, b) = choose|a: Text, b: Text| text == #[trigger] (a + part + b);
    assert(text + back =~= a + part + (b + back));
}

proof fn lemma_stands_part(text: Text, whole: Text, before: Text, part: Text, after: Text)
    requires
        stands_in(text, whole),
        whole == before + part + after,
    ensures
        stands_in(text, part),
{
    let (a, b) = choose|a: Text, b: Text| text == #[trigger] (a + whole + b);
    assert(text =~= (a + before) + part + (after + b));
}

proof fn lemma_summary(commits: Seq<StackCommitView>, i: int)
    requires
        0 <= i < commits.len(),
    ensures
        stands_in(commit_summaries(commits), commit_summary(commits[i])),
    decreases commits.len(),
{
    let init = commits.drop_last();
    if i < init.len() {
        lemma_summary(init, i);
        lemma_stands_before(
            commit_summaries(init),
            commit_summary(commits.last()),
            commit_summary(commits[i]),
        );
    } else {
        assert(commit_summaries(commits) =~= commit_summaries(init) + commit_summary(commits[i])
            + Seq::empty());
    }
}

proof fn lemma_actions(commits: Seq<StackCommitView>, remote: Text, i: int)
    requires
        0 <= i < commits.len(),
    ensures
        stands_in(all_actions(commits, remote), commit_actions(commits[i], remote)),
    decreases commits.len(),
{
    let init = commits.drop_last();
    if i < init.len() {
        lemma_actions(init, remote, i);
        lemma_stands_before(
            all_actions(init, remote),
            commit_actions(commits.last(), remote),
            commit_actions(commits[i], remote),
        );
    } else {
        assert(all_actions(commits, remote) =~= all_actions(init, remote) + commit_actions(
            commits[i],
            remote,
        ) + Seq::empty());
    }
}

proof fn lemma_summary_words(commit: StackCommitView)
    ensures
        commit_summary(commit) == "  "@ + clipped(commit.rev, 12) + "  "@ + commit.branch
            + " (fs-head/"@ + commit.branch + ") <- base fs-base/"@ + commit.branch + (
        if commit.identity_added {
            "  (new identity)"@
        } else {
            ""@
        }) + "\n                "@ + commit.subject + "\n"@,
{
    reveal_strlit(" (");
    reveal_strlit("fs-head/");
    reveal_strlit(" (fs-head/");
    reveal_strlit(") <- base ");
    reveal_strlit("fs-base/");
    reveal_strlit(") <- base fs-base/");
    let id = clipped(commit.rev, 12);
    let mark = if commit.identity_added {
        "  (new identity)"@
    } else {
        ""@
    };
    assert(" ("@ + "fs-head/"@ =~= " (fs-head/"@);
    assert(") <- base "@ + "fs-base/"@ =~= ") <- base fs-base/"@);
    let a = "  "@ + id + "  "@ + commit.branch;
    assert(a + " ("@ + ("fs-head/"@ + commit.branch) =~= a + " (fs-head/"@ + commit.branch);
    let b = a + " (fs-head/"@ + commit.branch;
    assert(b + ") <- base "@ + ("fs-base/"@ + commit.branch) =~= b + ") <- base fs-base/"@
        + commit.branch);
}

proof fn lemma_action_words(commit: StackCommitView, remote: Text)
    ensures
        commit_actions(commit, remote) == (if commit.identity_added {
            "  add fs-branch: "@ + commit.branch + " to "@ + clipped(commit.rev, 12) + "\n"@
        } else {
            Seq::empty()
        }) + ("  create/update local fs-head/"@ + commit.branch + " tracking "@ + remote
            + "/fs-head/"@ + commit.branch + "\n  atomically update fs-base/"@ + commit.branch
            + " and fs-head/"@ + commit.branch + "\n"@),
{
    reveal_strlit("");
    reveal_strlit("  add ");
    reveal_strlit("fs-branch");
    reveal_strlit(": ");
    reveal_strlit("  add fs-branch: ");
    reveal_strlit("  create/update local ");
    reveal_strlit("fs-head/");
    reveal_strlit("  create/update local fs-head/");
    reveal_strlit("/");
    reveal_strlit("/fs-head/");
    reveal_strlit("\n  atomically update ");
    reveal_strlit("fs-base/");
    reveal_strlit("\n  atomically update fs-base/");
    reveal_strlit(" and ");
    reveal_strlit(" and fs-head/");
    let b = commit.branch;
    let id = clipped(commit.rev, 12);
    assert("  add "@ + "fs-branch"@ + ": "@ =~= "  add fs-branch: "@);
    assert("  create/update local "@ + "fs-head/"@ =~= "  create/update local fs-head/"@);
    assert("/"@ + "fs-head/"@ =~= "/fs-head/"@);
    assert("\n  atomically update "@ + "fs-base/"@ =~= "\n  atomically update fs-base/"@);
    assert(" and "@ + "fs-head/"@ =~= " and fs-head/"@);
    let first = if commit.identity_added {
        "  add fs-branch: "@ + b + " to "@ + id + "\n"@
    } else {
        Seq::empty()
    };
    let spoken = if commit.identity_added {
        "  add "@ + "fs-branch"@ + ": "@ + b + " to "@ + id + "\n"@
    } else {
        ""@
    };
    assert(spoken =~= first);
    let p1 = first + "  create/update local "@ + ("fs-head/"@ + b);
    assert(p1 =~= first + ("  create/update local fs-head/"@ + b));
    let p2 = p1 + " tracking "@ + remote + "/"@ + ("fs-head/"@ + b);
    assert(p2 =~= first + ("  create/update local fs-head/"@ + b + " tracking "@ + remote
        + "/fs-head/"@ + b));
    let p3 = p2 + "\n  atomically update "@ + ("fs-base/"@ + b);
    assert(p3 =~= first + ("  create/update local fs-head/"@ + b + " tracking "@ + remote
        + "/fs-head/"@ + b + "\n  atomically update fs-base/"@ + b));
    let p4 = p3 + " and "@ + ("fs-head/"@ + b) + "\n"@;
    assert(p4 =~= first + ("  create/update local fs-head/"@ + b + " tracking "@ + remote
        + "/fs-head/"@ + b + "\n  atomically update fs-base/"@ + b + " and fs-head/"@ + b
        + "\n"@));
}

/// The arguments that open, change and find pull requests name the fork, and all that is
/// said of the pull request; one is a draft where that is wanted and only there.
pub proof fn law_pull_requests_are_asked_for_in_full(
    fork: Text,
    request: CreateView,
    number: u64,
    title: Text,
    body: Text,
    branch: Text,
)
    ensures
        ({
            let args = create_args(fork, request);
            &&& args.take(12) == seq![
                "pr"@,
                "create"@,
                "--repo"@,
                fork,
                "--base"@,
                request.base,
                "--head"@,
                request.head,
                "--title"@,
                request.title,
                "--body"@,
                request.body,
            ]
            &&& args.skip(12) == if request.draft {
                seq!["--draft"@]
            } else {
                Seq::empty()
            }
        }),
        edit_args(fork, number, title, body) == seq![
            "pr"@,
            "edit"@,
            decimal(number as nat),
            "--repo"@,
            fork,
            "--title"@,
            title,
            "--body"@,
            body,
        ],
        list_args(fork, branch).take(8) == seq![
            "pr"@,
            "list"@,
            "--repo"@,
            fork,
            "--head"@,
            branch,
            "--state"@,
            "open"@,
        ],
{
    let args = create_args(fork, request);
    assert(args.take(12) =~= seq![
        "pr"@,
        "create"@,
        "--repo"@,
        fork,
        "--base"@,
        request.base,
        "--head"@,
        request.head,
        "--title"@,
        request.title,
        "--body"@,
        request.body,
    ]);
    assert(args.skip(12) =~= if request.draft {
        seq!["--draft"@]
    } else {
        Seq::empty()
    });
    assert(list_args(fork, branch).take(8) =~= seq![
        "pr"@,
        "list"@,
        "--repo"@,
        fork,
        "--head"@,
        branch,
        "--state"@,
        "open"@,
    ]);
}

proof fn lemma_last_separator(front: Text, c: char, rest: Text)
    requires
        is_separator(c),
        forall|i: int| 0 <= i < rest.len() ==> !is_separator(#[trigger] rest[i]),
    ensures
        last_separator(front.push(c) + rest) == front.len(),
    decreases rest.len(),
{
    let whole = front.push(c) + rest;
    if rest.len() == 0 {
        assert(whole =~= front.push(c));
    } else {
        let init = rest.drop_last();
        assert forall|i: int| 0 <= i < init.len() implies !is_separator(#[trigger] init[i]) by {
            assert(init[i] == rest[i]);
        }
        lemma_last_separator(front, c, init);
        assert(whole.drop_last() =~= front.push(c) + init);
        assert(!is_separator(rest[rest.len() - 1]));
    }
}

proof fn lemma_nothing_to_trim(s: Text)
    requires
        s.len() > 0,
        !is_space(s[0]),
        !is_space(s.last()),
    ensures
        trim(s) == s,
{
    assert(trim_end(s) == s);
    assert(trim_start(s) == s);
}

/// The fork of a remote is the owner and the name at the end of its address, however the
/// address begins, whether a colon or a slash stands before the owner, and whether or not
/// the address ends with the suffix of repositories.
pub proof fn law_forks_are_read_from_addresses(
    front: Text,
    c: char,
    owner: Text,
    name: Text,
    suffix: bool,
)
    requires
        is_separator(c),
        front.len() > 0,
        !is_space(front[0]),
        owner.len() > 0,
        name.len() > 0,
        forall|i: int| 0 <= i < owner.len() ==> !is_separator(#[trigger] owner[i]),
        forall|i: int| 0 <= i < name.len() ==> !is_separator(#[trigger] name[i]),
        !is_space(name.last()),
        !".git"@.is_suffix_of(name),
    ensures
        owner_and_name(
            front.push(c) + owner + "/"@ + name + if suffix {
                ".git"@
            } else {
                Seq::empty()
            },
        ) == Some(owner + "/"@ + name),
{
    reveal_strlit("/");
    reveal_strlit(".git");
    let address = front.push(c) + owner + "/"@ + name;
    let whole = address + if suffix {
        ".git"@
    } else {
        Seq::empty()
    };
    assert(whole[0] == front[0]);
    assert(address.last() == name.last());
    if suffix {
        assert(whole.last() == 't');
        assert(whole.subrange(whole.len() - 4, whole.len() as int) =~= ".git"@);
        assert(whole.take(whole.len() - 4) =~= address);
    } else {
        assert(whole =~= address);
    }
    lemma_nothing_to_trim(whole);
    if ".git"@.is_suffix_of(address) && name.len() < 4 {
        let end = address.subrange(address.len() - 4, address.len() as int);
        assert(address[address.len() - name.len() - 1] == '/');
        assert(end[3 - name.len()] == '/');
        assert(end == ".git"@);
        assert(".git"@[0] == '.' && ".git"@[1] == 'g' && ".git"@[2] == 'i' && ".git"@[3] == 't');
    } else if ".git"@.is_suffix_of(address) {
        assert(address.subrange(address.len() - 4, address.len() as int) =~= name.subrange(
            name.len() - 4,
            name.len() as int,
        ));
    }
    assert(without_git(address) == address);
    assert(without_git(whole) == address) by {
        reveal_with_fuel(without_git, 2);
    }
    let before = front.push(c) + owner;
    assert(address =~= before.push('/') + name);
    lemma_last_separator(before, '/', name);
    assert(address.skip(before.len() as int + 1) =~= name);
    assert(address.take(before.len() as int) =~= before);
    lemma_last_separator(front, c, owner);
    assert(before.skip(front.len() as int + 1) =~= owner);
}

} // verus!

//! What checking out and moving commits runs.

use crate::integrations::runner::Call;
use crate::split::{joined, lines_of};
use crate::text::Text;
use crate::ui::history::reaches;
use crate::ui::laws::acyclic;
use crate::ui::local::{ordered_call, rearranged};
use crate::ui::model::{GraphView, MoveView};
use crate::ui::move_laws::law_commit_rebase_replays_the_plan;
use crate::ui::moves::planned;
use crate::ui::rebase::{
    branches_in, checked, checked_out, clean_args, clean_calls, clean_result, detached, done,
    editor_command, finds, law_clean_means_nothing_under_way, moved, not_blank, rebase_args,
    rebased, removed, replies_of, since, todo_of,
};
use crate::ui::todo::shell_word;
use vstd::prelude::*;

verus! {

/// A run of Git with some arguments.
pub open spec fn runs_git(call: Call, repo: Text, args: Seq<Text>) -> bool {
    &&& call.program == "git"@
    &&& call.args == args
    &&& call.repo == repo
    &&& call.input is None
}

/// A list has been written, and the program and the file told.
pub open spec fn written<W: Fn(&str) -> Result<(String, String), String>>(
    write: W,
    list: Text,
    executable: Text,
    file: Text,
) -> bool {
    exists|text: &str, place: (String, String)|
        text@ == list && place.0@ == executable && place.1@ == file && #[trigger] call_ensures(
            write,
            (text,),
            Ok::<(String, String), String>(place),
        )
}

/// The last run is a rebase that edits Git's list with a file that was written for it.
pub open spec fn runs_rebase<W: Fn(&str) -> Result<(String, String), String>>(
    write: W,
    call: Call,
    plan: MoveView,
) -> bool {
    exists|executable: Text, file: Text|
        #![trigger shell_word(executable), shell_word(file)]
        written(write, todo_of(plan), executable, file) && call.env == seq![
            (
                "GIT_SEQUENCE_EDITOR"@,
                shell_word(executable) + (if plan.include_descendants {
                    " todo-editor "@
                } else {
                    " sequence-editor "@
                }) + shell_word(file),
            ),
        ]
}

/// The file that a list has been written to has been removed again.
pub open spec fn cleans_up<W: Fn(&str) -> Result<(String, String), String>, D: Fn(&str)>(
    write: W,
    remove: D,
    list: Text,
) -> bool {
    exists|executable: Text, file: Text|
        #[trigger] written(write, list, executable, file) && removed(remove, file)
}

/// A move that succeeds has left the branch where the branches of layers are rewritten for a
/// single commit, and checked the branch at the end out again behind the rebase; else it has
/// run the rebase alone. Git's list has been edited with the plan's, and each run
/// succeeded.
pub proof fn law_moves_run_one_rebase<W: Fn(&str) -> Result<(String, String), String>, D: Fn(&str)>(
    write: W,
    remove: D,
    repo: Text,
    plan: MoveView,
    before: Seq<Call>,
    after: Seq<Call>,
    r: Result<(), Text>,
)
    requires
        moved(write, remove, repo, plan, before, after, r),
        r is Ok,
    ensures
        ({
            let n = before.len() as int;
            let apart = plan.detach_for_rewrite && !plan.include_descendants;
            let at = if apart {
                n + 1
            } else {
                n
            };
            &&& before.is_prefix_of(after)
            &&& after.len() == if apart {
                n + 3
            } else {
                n + 1
            }
            &&& runs_git(after[at], repo, rebase_args(plan))
            &&& runs_rebase(write, after[at], plan)
            &&& cleans_up(write, remove, todo_of(plan))
            &&& after[at].reply is Ok
            &&& apart ==> runs_git(after[n], repo, seq!["switch"@, "--detach"@, plan.tip_commit])
                && after[n].reply is Ok
            &&& apart ==> runs_git(after[n + 2], repo, seq!["switch"@, plan.checkout_branch])
                && after[n + 2].reply is Ok
        }),
{
    let (left, leaving) = choose|left: Seq<Call>, leaving: Result<(), Text>|
        #[trigger] detached(repo, plan, before, left, leaving) && match leaving {
            Err(error) => after == left && r == Err::<(), Text>(error),
            Ok(()) => exists|list: &str, place: Result<(String, String), String>|
                list@ == todo_of(plan) && #[trigger] call_ensures(write, (list,), place)
                    && match place {
                    Err(error) => after == left && r == Err::<(), Text>(error@),
                    Ok((executable, file)) => rebased(
                        repo,
                        plan,
                        executable@,
                        file@,
                        left,
                        after,
                        r,
                    ) && removed(remove, file@),
                },
        };
    let (list, place) = choose|list: &str, place: Result<(String, String), String>|
        list@ == todo_of(plan) && #[trigger] call_ensures(write, (list,), place) && match place {
            Err(error) => after == left && r == Err::<(), Text>(error@),
            Ok((executable, file)) => rebased(repo, plan, executable@, file@, left, after, r)
                && removed(remove, file@),
        };
    let ok = place->Ok_0;
    let n = before.len() as int;
    let at = left.len() as int;
    assert(call_ensures(write, (list,), Ok::<(String, String), String>(ok)));
    assert(written(write, todo_of(plan), ok.0@, ok.1@));
    assert(after[at].env == seq![
        ("GIT_SEQUENCE_EDITOR"@, editor_command(plan, ok.0@, ok.1@)),
    ]);
    assert(runs_rebase(write, after[at], plan));
    assert(removed(remove, ok.1@));
    assert(before =~= after.subrange(0, n));
}

/// A move that fails has failed with its last run, if any, or with the list: nothing is run
/// behind a run that failed.
pub proof fn law_failed_moves_stop<W: Fn(&str) -> Result<(String, String), String>, D: Fn(&str)>(
    write: W,
    remove: D,
    repo: Text,
    plan: MoveView,
    before: Seq<Call>,
    after: Seq<Call>,
    r: Result<(), Text>,
    i: int,
)
    requires
        moved(write, remove, repo, plan, before, after, r),
        before.len() <= i < after.len() - 1,
    ensures
        after[i].reply is Ok,
{
    let (left, leaving) = choose|left: Seq<Call>, leaving: Result<(), Text>|
        #[trigger] detached(repo, plan, before, left, leaving) && match leaving {
            Err(error) => after == left && r == Err::<(), Text>(error),
            Ok(()) => exists|list: &str, place: Result<(String, String), String>|
                list@ == todo_of(plan) && #[trigger] call_ensures(write, (list,), place)
                    && match place {
                    Err(error) => after == left && r == Err::<(), Text>(error@),
                    Ok((executable, file)) => rebased(
                        repo,
                        plan,
                        executable@,
                        file@,
                        left,
                        after,
                        r,
                    ) && removed(remove, file@),
                },
        };
}

/// A commit is checked out at its branch where it has just one, and else by itself; Git is
/// asked for the branches first.
pub proof fn law_checkouts_use_the_only_branch(
    repo: Text,
    revision: Text,
    before: Seq<Call>,
    after: Seq<Call>,
    names: Seq<Text>,
)
    requires
        checked_out(repo, revision, before, after, Ok::<(), Text>(())),
        after[before.len() as int].reply == Ok::<Text, Text>(joined(names, "\n"@) + "\n"@),
        lines_of(joined(names, "\n"@) + "\n"@) == names,
        forall|i: int| 0 <= i < names.len() ==> (#[trigger] names[i]).len() > 0,
    ensures
        after.len() == before.len() + 2,
        runs_git(
            after[before.len() as int],
            repo,
            seq![
                "for-each-ref"@,
                "--format=%(refname:short)"@,
                "--points-at"@,
                revision,
                "refs/heads"@,
            ],
        ),
        runs_git(
            after.last(),
            repo,
            if names.len() == 1 {
                seq!["switch"@, names[0]]
            } else {
                seq!["switch"@, "--detach"@, revision]
            },
        ),
        after.last().reply is Ok,
{
    lemma_all_kept(names);
    assert(branches_in(joined(names, "\n"@) + "\n"@) == names);
}

proof fn lemma_all_kept(names: Seq<Text>)
    requires
        forall|i: int| 0 <= i < names.len() ==> (#[trigger] names[i]).len() > 0,
    ensures
        names.filter(not_blank()) == names,
    decreases names.len(),
{
    reveal(Seq::filter);
    if names.len() > 0 {
        let init = names.drop_last();
        assert forall|i: int| 0 <= i < init.len() implies (#[trigger] init[i]).len() > 0 by {
            assert(init[i] == names[i]);
        }
        lemma_all_kept(init);
        assert(names[names.len() - 1].len() > 0);
        assert(names =~= init.push(names.last()));
    }
}

/// The plain way of moving, too, hands Git just the commits of the plan: the rebase of a
/// commit move starts at what they stand on and ends with the branch; that of a substack
/// goes onto the destination.
pub proof fn law_plain_rebases_replay_the_plan(
    g: GraphView,
    selected: Text,
    destination: Text,
    plan: MoveView,
    repo: Text,
    executable: Text,
    file: Text,
    reply: Result<Text, Text>,
    x: Text,
)
    requires
        g.commits.dom().finite(),
        acyclic(g.commits),
        planned(g, selected, destination, false) == Ok::<MoveView, Text>(plan),
    ensures
        ({
            let call = ordered_call(repo, plan, executable, file, reply);
            &&& call.program == "git"@
            &&& call.repo == repo
            &&& call.args.len() == 7
            &&& call.args.take(5) == seq![
                "-c"@,
                "rebase.abbreviateCommands=false"@,
                "rebase"@,
                "--interactive"@,
                "--update-refs"@,
            ]
            &&& plan.commits.contains(x) <==> reaches(g.commits, plan.tip_commit, x) && !reaches(
                g.commits,
                call.args[5],
                x,
            )
            &&& !plan.commits.contains(call.args[5])
            &&& call.args[6] == plan.tip
        }),
{
    law_commit_rebase_replays_the_plan(g, selected, destination, plan, x);
    let call = ordered_call(repo, plan, executable, file, reply);
    assert(rebase_args(plan)[5] == plan.base);
    assert(call.args.take(5) =~= seq![
        "-c"@,
        "rebase.abbreviateCommands=false"@,
        "rebase"@,
        "--interactive"@,
        "--update-refs"@,
    ]);
}

/// The plain way of moving runs Git once, whether or not it succeeds.
pub proof fn law_plain_moves_run_once<W: Fn(&str) -> Result<(String, String), String>, D: Fn(&str)>(
    write: W,
    remove: D,
    repo: Text,
    plan: MoveView,
    before: Seq<Call>,
    after: Seq<Call>,
    r: Result<(), Text>,
)
    requires
        rearranged(write, remove, repo, plan, before, after, r),
    ensures
        r is Ok ==> after.len() == before.len() + 1 && after.last().reply is Ok,
        after.len() <= before.len() + 1,
        before.is_prefix_of(after),
        plan.include_descendants ==> runs_git(
            after.last(),
            repo,
            seq!["rebase"@, "--update-refs"@, "--onto"@, plan.destination, plan.base, plan.tip],
        ),
        !plan.include_descendants && after.len() > before.len() ==> cleans_up(
            write,
            remove,
            joined(plan.commits, "\n"@) + "\n"@,
        ),
{
    assert(before =~= after.subrange(0, before.len() as int));
    if !plan.include_descendants && after.len() > before.len() {
        let answer = after.last().reply;
        let (list, place) = choose|list: &str, place: Result<(String, String), String>|
            list@ == joined(plan.commits, "\n"@) + "\n"@ && #[trigger] call_ensures(
                write,
                (list,),
                place,
            ) && match place {
                Err(error) => after == before && r == Err::<(), Text>(error@),
                Ok((executable, file)) => after == before.push(
                    ordered_call(repo, plan, executable@, file@, answer),
                ) && r == done(answer) && removed(remove, file@),
            };
        let ok = place->Ok_0;
        assert(call_ensures(write, (list,), Ok::<(String, String), String>(ok)));
        assert(written(write, list@, ok.0@, ok.1@));
    }
}

/// Before history is rewritten Git is asked whether anything is changed and whether a
/// rebase, a merge or a cherry-pick is under way, and its directory is looked into for a
/// rebase. All goes ahead only where nothing is.
pub proof fn law_history_is_rewritten_only_in_clean_repositories<P: Fn(&str) -> bool>(
    there: P,
    repo: Text,
    before: Seq<Call>,
    after: Seq<Call>,
)
    requires
        checked(there, repo, before, after, Ok::<(), Text>(())),
    ensures
        ({
            let n = before.len() as int;
            let dir = after[n + 4].reply->Ok_0;
            &&& after.len() == n + 5
            &&& after.take(n) == before
            &&& runs_git(after[n], repo, seq!["status"@, "--porcelain"@])
            &&& after[n].reply == Ok::<Text, Text>(Seq::empty())
            &&& runs_git(
                after[n + 1],
                repo,
                seq!["rev-parse"@, "--verify"@, "-q"@, "REBASE_HEAD"@],
            )
            &&& after[n + 1].reply is Err
            &&& runs_git(
                after[n + 2],
                repo,
                seq!["rev-parse"@, "--verify"@, "-q"@, "MERGE_HEAD"@],
            )
            &&& after[n + 2].reply is Err
            &&& runs_git(
                after[n + 3],
                repo,
                seq!["rev-parse"@, "--verify"@, "-q"@, "CHERRY_PICK_HEAD"@],
            )
            &&& after[n + 3].reply is Err
            &&& runs_git(after[n + 4], repo, seq!["rev-parse"@, "--absolute-git-dir"@])
            &&& after[n + 4].reply is Ok
            &&& dir.len() > 0 && !"/"@.is_suffix_of(dir) ==> {
                &&& finds(there, dir + "/"@ + "rebase-merge"@, false)
                &&& finds(there, dir + "/"@ + "rebase-apply"@, false)
            }
        }),
{
    let n = before.len() as int;
    let calls = since(after, before);
    let replies = replies_of(calls);
    law_clean_means_nothing_under_way(replies, clean_result(replies)->0->Ok_0);
    assert(replies.len() == calls.len());
    assert forall|i: int| 0 <= i < 5 implies after[n + i] == #[trigger] calls[i] && calls[i].reply
        == replies[i] && runs_git(calls[i], repo, clean_args(i)) by {
        assert(calls[i] == clean_calls(repo, replies)[i]);
    }
    assert(after[n] == calls[0] && after[n + 1] == calls[1] && after[n + 2] == calls[2]
        && after[n + 3] == calls[3] && after[n + 4] == calls[4]);
    assert(after.take(n) =~= before);
}

/// Where something is changed, or an operation is under way, nothing is rewritten, and why
/// is told.
pub proof fn law_unclean_repositories_are_told<P: Fn(&str) -> bool>(
    there: P,
    repo: Text,
    before: Seq<Call>,
    after: Seq<Call>,
    r: Result<(), Text>,
    i: int,
)
    requires
        checked(there, repo, before, after, r),
        0 <= i,
        before.len() + i < after.len(),
    ensures
        ({
            let reply = after[before.len() + i].reply;
            &&& i == 0 && reply is Ok && reply->Ok_0.len() > 0 ==> r == Err::<(), Text>(
                "the working tree must be clean"@,
            )
            &&& i == 0 && reply is Err ==> r == Err::<(), Text>(reply->Err_0)
            &&& 1 <= i < 4 && reply is Ok ==> r == Err::<(), Text>(
                "finish the current Git operation first"@,
            )
        }),
{
    let calls = since(after, before);
    let replies = replies_of(calls);
    assert(after[before.len() + i] == calls[i]);
    assert(replies[i] == calls[i].reply);
    let last = replies.len() - 1;
    if i < last {
        assert(replies.drop_last()[i] == replies[i]);
    }
}

} // verus!

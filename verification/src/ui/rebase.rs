//! Rewriting history with Git: checking out and moving commits.

use crate::integrations::git::{git_call, run};
use crate::integrations::runner::{reply, Call, CommandRunner, Recorded};
use crate::order::{lemma_filter_step, views};
use crate::split::{join, joined, lines, lines_of};
use crate::text::{ends_with, maybe, texts, Text};
use crate::ui::model::{MovePlan, MoveView};
use crate::ui::render::maybe_str;
use crate::ui::todo::{
    explicit_lines, explicit_rebase_todo, reorder_todo, reordered, shell_quote, shell_word,
    todo_result,
};
use vstd::prelude::*;

verus! {

/// What holds the commit of an operation that is under way.
pub open spec fn operation_ref(i: int) -> Text {
    if i == 0 {
        "REBASE_HEAD"@
    } else if i == 1 {
        "MERGE_HEAD"@
    } else {
        "CHERRY_PICK_HEAD"@
    }
}

/// What is asked of Git, one question after another, before history is rewritten.
pub open spec fn clean_args(i: int) -> Seq<Text> {
    if i == 0 {
        seq!["status"@, "--porcelain"@]
    } else if i < 4 {
        seq!["rev-parse"@, "--verify"@, "-q"@, operation_ref(i - 1)]
    } else {
        seq!["rev-parse"@, "--absolute-git-dir"@]
    }
}

/// The runs of Git that ask so many of the questions.
pub open spec fn clean_calls(repo: Text, replies: Seq<Result<Text, Text>>) -> Seq<Call> {
    Seq::new(replies.len(), |i: int| git_call(repo, clean_args(i), replies[i]))
}

/// Git's replies so far leave open whether history may be rewritten: nothing is changed,
/// and none of the operations asked for is under way.
pub open spec fn undecided(replies: Seq<Result<Text, Text>>) -> bool {
    &&& replies.len() <= 4
    &&& replies.len() > 0 ==> replies[0] == Ok::<Text, Text>(Seq::empty())
    &&& forall|i: int| 1 <= i < replies.len() ==> (#[trigger] replies[i]) is Err
}

/// What Git's replies come to, where the last of them decides: the Git directory, if
/// nothing is changed and no operation is under way.
pub open spec fn clean_result(replies: Seq<Result<Text, Text>>) -> Option<Result<Text, Text>> {
    if replies.len() == 0 || !undecided(replies.drop_last()) {
        None
    } else if replies.len() == 1 {
        match replies[0] {
            Err(error) => Some(Err(error)),
            Ok(changes) => if changes.len() == 0 {
                None
            } else {
                Some(Err("the working tree must be clean"@))
            },
        }
    } else if replies.len() < 5 {
        match replies.last() {
            Err(_) => None,
            Ok(_) => Some(Err("finish the current Git operation first"@)),
        }
    } else {
        Some(replies.last())
    }
}

/// The replies of runs.
pub open spec fn replies_of(calls: Seq<Call>) -> Seq<Result<Text, Text>> {
    Seq::new(calls.len(), |i: int| calls[i].reply)
}

/// What was run since.
pub open spec fn since(now: Seq<Call>, before: Seq<Call>) -> Seq<Call> {
    now.skip(before.len() as int)
}

/// Runs Git once more.
fn ask<R: CommandRunner>(runner: &mut Recorded<R>, repo: &str, args: &Vec<&str>, start: Ghost<Seq<Call>>) -> (r:
    Result<String, String>)
    requires
        start@.is_prefix_of(old(runner).history()),
    ensures
        start@.is_prefix_of(final(runner).history()),
        since(final(runner).history(), start@) == since(old(runner).history(), start@).push(
            git_call(repo@, args@.map_values(|arg: &str| arg@), reply(r)),
        ),
        final(runner).history().take(start@.len() as int) == start@,
{
    let r = run(runner, repo, args);
    assert(since(runner.history(), start@) =~= since(old(runner).history(), start@).push(
        git_call(repo@, args@.map_values(|arg: &str| arg@), reply(r)),
    ));
    assert(runner.history().take(start@.len() as int) =~= start@);
    r
}

/// Asks Git whether nothing is changed and no operation is under way, and where its
/// directory is.
fn ask_clean<R: CommandRunner>(runner: &mut Recorded<R>, repo: &str) -> (r: Result<String, String>)
    ensures
        ({
            let calls = since(final(runner).history(), old(runner).history());
            &&& final(runner).history() == old(runner).history() + calls
            &&& calls == clean_calls(repo@, replies_of(calls))
            &&& clean_result(replies_of(calls)) == Some(reply(r))
        }),
{
    let ghost start = runner.history();
    let ghost none = Seq::<Result<Text, Text>>::empty();
    assert(since(start, start) =~= clean_calls(repo@, none));
    let mut args: Vec<&str> = Vec::new();
    args.push("status");
    args.push("--porcelain");
    let changes = ask(runner, repo, &args, Ghost(start));
    let ghost one = none.push(reply(changes));
    proof {
        assert(args@.map_values(|arg: &str| arg@) =~= clean_args(0));
        lemma_asked(start, runner.history(), repo@, none, reply(changes));
    }
    assert(one.drop_last() =~= none);
    match &changes {
        Err(error) => {
            return Err(error.clone());
        },
        Ok(changes) => {
            if !changes.as_str().is_empty() {
                return Err("the working tree must be clean".to_owned());
            }
        },
    }
    let mut i: usize = 0;
    let ghost mut replies = one;
    assert(one[0] == Ok::<Text, Text>(Seq::empty())) by {
        assert(reply(changes)->Ok_0 =~= Seq::<char>::empty());
    }
    while i < 3
        invariant
            i <= 3,
            start == old(runner).history(),
            start.is_prefix_of(runner.history()),
            runner.history() == start + since(runner.history(), start),
            replies.len() == 1 + i,
            since(runner.history(), start) == clean_calls(repo@, replies),
            undecided(replies),
        decreases 3 - i,
    {
        let name = if i == 0 {
            "REBASE_HEAD"
        } else if i == 1 {
            "MERGE_HEAD"
        } else {
            "CHERRY_PICK_HEAD"
        };
        let mut args: Vec<&str> = Vec::new();
        args.push("rev-parse");
        args.push("--verify");
        args.push("-q");
        args.push(name);
        let found = ask(runner, repo, &args, Ghost(start));
        proof {
            assert(args@.map_values(|arg: &str| arg@) =~= clean_args(i + 1));
            lemma_asked(start, runner.history(), repo@, replies, reply(found));
            assert(replies.push(reply(found)).drop_last() =~= replies);
            replies = replies.push(reply(found));
        }
        if found.is_ok() {
            return Err("finish the current Git operation first".to_owned());
        }
        i = i + 1;
    }
    let mut args: Vec<&str> = Vec::new();
    args.push("rev-parse");
    args.push("--absolute-git-dir");
    let r = ask(runner, repo, &args, Ghost(start));
    proof {
        assert(args@.map_values(|arg: &str| arg@) =~= clean_args(4));
        lemma_asked(start, runner.history(), repo@, replies, reply(r));
        assert(replies.push(reply(r)).drop_last() =~= replies);
    }
    r
}

/// One more question.
proof fn lemma_asked(
    start: Seq<Call>,
    now: Seq<Call>,
    repo: Text,
    replies: Seq<Result<Text, Text>>,
    answer: Result<Text, Text>,
)
    requires
        start.is_prefix_of(now),
        since(now, start) == clean_calls(repo, replies).push(
            git_call(repo, clean_args(replies.len() as int), answer),
        ),
    ensures
        now == start + since(now, start),
        since(now, start) == clean_calls(repo, replies.push(answer)),
        replies_of(since(now, start)) == replies.push(answer),
{
    assert(now =~= start + since(now, start));
    assert(since(now, start) =~= clean_calls(repo, replies.push(answer)));
    assert(replies_of(since(now, start)) =~= replies.push(answer));
}

/// A name in a directory.
pub open spec fn entry(dir: Text, name: Text) -> Text {
    if dir.len() == 0 || "/"@.is_suffix_of(dir) {
        dir + name
    } else {
        dir + "/"@ + name
    }
}

/// Computes `entry`.
fn entry_path(dir: &str, name: &str) -> (r: String)
    ensures
        r@ == entry(dir@, name@),
{
    if dir.is_empty() || ends_with(dir, "/") {
        let r = dir.to_owned().concat(name);
        assert(r@ =~= entry(dir@, name@));
        r
    } else {
        let r = dir.to_owned().concat("/").concat(name);
        assert(r@ =~= entry(dir@, name@));
        r
    }
}

/// Whether there is anything at a path, as `there` finds it.
pub open spec fn finds<P: Fn(&str) -> bool>(there: P, path: Text, found: bool) -> bool {
    exists|p: &str| p@ == path && #[trigger] call_ensures(there, (p,), found)
}

/// What the entries of Git's directory come to: an operation is under way where there is
/// one of those that a rebase keeps there.
pub open spec fn no_rebase<P: Fn(&str) -> bool>(there: P, dir: Text, r: Result<(), Text>) -> bool {
    if r is Ok {
        &&& finds(there, entry(dir, "rebase-merge"@), false)
        &&& finds(there, entry(dir, "rebase-apply"@), false)
    } else {
        &&& r == Err::<(), Text>("finish the current Git operation first"@)
        &&& finds(there, entry(dir, "rebase-merge"@), true) || finds(
            there,
            entry(dir, "rebase-apply"@),
            true,
        )
    }
}

/// Git has been asked whether nothing is changed and no operation is under way, and `r`
/// is what its replies and the entries of its directory come to.
pub open spec fn checked<P: Fn(&str) -> bool>(
    there: P,
    repo: Text,
    before: Seq<Call>,
    after: Seq<Call>,
    r: Result<(), Text>,
) -> bool {
    let calls = since(after, before);
    &&& after == before + calls
    &&& calls == clean_calls(repo, replies_of(calls))
    &&& match clean_result(replies_of(calls)) {
        None => false,
        Some(Err(error)) => r == Err::<(), Text>(error),
        Some(Ok(dir)) => no_rebase(there, dir, r),
    }
}

/// Checks that nothing is changed and that no operation is under way. `there` tells
/// whether there is anything at a path.
pub fn assert_clean<R: CommandRunner, P: Fn(&str) -> bool>(
    runner: &mut Recorded<R>,
    repo: &str,
    there: &P,
) -> (r: Result<(), String>)
    requires
        forall|path: &str| #[trigger] call_requires(*there, (path,)),
    ensures
        checked(*there, repo@, old(runner).history(), final(runner).history(), unit_result(r)),
{
    let dir = match ask_clean(runner, repo) {
        Ok(dir) => dir,
        Err(error) => {
            return Err(error);
        },
    };
    let merging = entry_path(dir.as_str(), "rebase-merge");
    let applying = entry_path(dir.as_str(), "rebase-apply");
    let merging = merging.as_str();
    let applying = applying.as_str();
    if there(merging) {
        return Err("finish the current Git operation first".to_owned());
    }
    if there(applying) {
        return Err("finish the current Git operation first".to_owned());
    }
    Ok(())
}

/// Where Git replied that all is in order, nothing was changed and none of the three
/// operations had left its head.
pub proof fn law_clean_means_nothing_under_way(replies: Seq<Result<Text, Text>>, dir: Text)
    requires
        clean_result(replies) == Some(Ok::<Text, Text>(dir)),
    ensures
        replies.len() == 5,
        replies[0] == Ok::<Text, Text>(Seq::empty()),
        replies[1] is Err,
        replies[2] is Err,
        replies[3] is Err,
        replies[4] == Ok::<Text, Text>(dir),
{
    let before = replies.drop_last();
    assert(before[0] == replies[0]);
    assert(before[1] == replies[1]);
    assert(before[2] == replies[2]);
    assert(before[3] == replies[3]);
}

/// The branches in a list, one on each line.
pub open spec fn branches_in(refs: Text) -> Seq<Text> {
    lines_of(refs).filter(not_blank())
}

/// Whether a line holds anything.
pub open spec fn not_blank() -> spec_fn(Text) -> bool {
    |line: Text| line.len() > 0
}

/// How a revision is checked out: at its branch, where there is one.
pub open spec fn switch_args(revision: Text, branch: Option<Text>) -> Seq<Text> {
    match branch {
        Some(branch) => seq!["switch"@, branch],
        None => seq!["switch"@, "--detach"@, revision],
    }
}

/// What a run without a result comes to.
pub open spec fn done(answer: Result<Text, Text>) -> Result<(), Text> {
    match answer {
        Ok(_) => Ok(()),
        Err(error) => Err(error),
    }
}

/// The text of a result without a value.
pub open spec fn unit_result(r: Result<(), String>) -> Result<(), Text> {
    match r {
        Ok(()) => Ok(()),
        Err(error) => Err(error@),
    }
}

/// Checks out a revision, at a branch where one is given.
fn switch_to<R: CommandRunner>(
    runner: &mut Recorded<R>,
    repo: &str,
    revision: &str,
    branch: Option<&str>,
) -> (r: Result<(), String>)
    ensures
        switched(
            repo@,
            revision@,
            maybe_str(branch),
            old(runner).history(),
            final(runner).history(),
            unit_result(r),
        ),
{
    let mut args: Vec<&str> = Vec::new();
    args.push("switch");
    match branch {
        Some(branch) => {
            args.push(branch);
        },
        None => {
            args.push("--detach");
            args.push(revision);
        },
    }
    assert(args@.map_values(|arg: &str| arg@) =~= switch_args(
        revision@,
        maybe_str(branch),
    ));
    match run(runner, repo, &args) {
        Ok(_) => Ok(()),
        Err(error) => Err(error),
    }
}

/// What lists the branches at a revision.
pub open spec fn points_at_args(revision: Text) -> Seq<Text> {
    seq!["for-each-ref"@, "--format=%(refname:short)"@, "--points-at"@, revision, "refs/heads"@]
}

/// The branch to check out, where there is just one.
pub open spec fn only_branch(refs: Text) -> Option<Text> {
    if branches_in(refs).len() == 1 {
        Some(branches_in(refs)[0])
    } else {
        None
    }
}

/// Computes `only_branch`.
fn single_branch(refs: &str) -> (r: Option<String>)
    ensures
        maybe(r) == only_branch(refs@),
{
    let all = lines(refs);
    let ghost whole = lines_of(refs@);
    let ghost keeps = not_blank();
    let mut found: Vec<String> = Vec::new();
    let mut i: usize = 0;
    assert(whole.take(0) =~= Seq::<Text>::empty());
    assert(texts(found@) =~= whole.take(0).filter(keeps)) by {
        reveal(Seq::filter);
    }
    while i < all.len()
        invariant
            i <= all.len(),
            whole == texts(all@),
            keeps == not_blank(),
            texts(found@) == whole.take(i as int).filter(keeps),
        decreases all.len() - i,
    {
        proof {
            lemma_filter_step(whole, i as int, keeps);
        }
        assert(whole[i as int] == all@[i as int]@);
        if !all[i].as_str().is_empty() {
            let ghost was = texts(found@);
            found.push(all[i].clone());
            assert(texts(found@) =~= was.push(whole[i as int]));
        }
        i = i + 1;
    }
    assert(whole.take(whole.len() as int) =~= whole);
    assert(texts(found@).len() == found.len());
    if found.len() == 1 {
        assert(texts(found@)[0] == found@[0]@);
        Some(found[0].clone())
    } else {
        None
    }
}

/// Git has been told to check a revision out at a branch, and `r` is its reply.
pub open spec fn switched(
    repo: Text,
    revision: Text,
    branch: Option<Text>,
    before: Seq<Call>,
    after: Seq<Call>,
    r: Result<(), Text>,
) -> bool {
    let answer = after.last().reply;
    &&& after == before.push(git_call(repo, switch_args(revision, branch), answer))
    &&& r == done(answer)
}

/// Git has been asked for the branches at a revision, and told to check it out at the
/// only one.
pub open spec fn checked_out(
    repo: Text,
    revision: Text,
    before: Seq<Call>,
    after: Seq<Call>,
    r: Result<(), Text>,
) -> bool {
    let refs = after[before.len() as int].reply;
    let asked = before.push(git_call(repo, points_at_args(revision), refs));
    match refs {
        Err(error) => after == asked && r == Err::<(), Text>(error),
        Ok(refs) => switched(repo, revision, only_branch(refs), asked, after, r),
    }
}

/// Checks out a revision, at its branch where it has just one.
fn check_out<R: CommandRunner>(runner: &mut Recorded<R>, repo: &str, revision: &str) -> (r: Result<
    (),
    String,
>)
    ensures
        checked_out(
            repo@,
            revision@,
            old(runner).history(),
            final(runner).history(),
            unit_result(r),
        ),
{
    let ghost start = runner.history();
    let mut args: Vec<&str> = Vec::new();
    args.push("for-each-ref");
    args.push("--format=%(refname:short)");
    args.push("--points-at");
    args.push(revision);
    args.push("refs/heads");
    assert(args@.map_values(|arg: &str| arg@) =~= points_at_args(revision@));
    match run(runner, repo, &args) {
        Err(error) => Err(error),
        Ok(refs) => {
            let branch = single_branch(refs.as_str());
            match &branch {
                Some(branch) => switch_to(runner, repo, revision, Some(branch.as_str())),
                None => switch_to(runner, repo, revision, None),
            }
        },
    }
}

/// Checks out a revision, at its branch where it has just one, in a repository where
/// nothing is changed and no operation is under way.
pub fn checkout<R: CommandRunner, P: Fn(&str) -> bool>(
    runner: &mut Recorded<R>,
    repo: &str,
    revision: &str,
    there: &P,
) -> (r: Result<(), String>)
    requires
        forall|path: &str| #[trigger] call_requires(*there, (path,)),
    ensures
        exists|asked: Seq<Call>, clean: Result<(), Text>|
            #[trigger] checked(*there, repo@, old(runner).history(), asked, clean) && match clean {
                Err(error) => final(runner).history() == asked && unit_result(r) == Err::<
                    (),
                    Text,
                >(error),
                Ok(()) => checked_out(
                    repo@,
                    revision@,
                    asked,
                    final(runner).history(),
                    unit_result(r),
                ),
            },
{
    let clean = assert_clean(runner, repo, there);
    let ghost asked = runner.history();
    assert(checked(*there, repo@, old(runner).history(), asked, unit_result(clean)));
    match clean {
        Err(error) => Err(error),
        Ok(()) => check_out(runner, repo, revision),
    }
}

/// Checks out a revision, at a branch where one is given, in a repository where nothing
/// is changed and no operation is under way.
pub fn checkout_at<R: CommandRunner, P: Fn(&str) -> bool>(
    runner: &mut Recorded<R>,
    repo: &str,
    revision: &str,
    branch: Option<&str>,
    there: &P,
) -> (r: Result<(), String>)
    requires
        forall|path: &str| #[trigger] call_requires(*there, (path,)),
    ensures
        exists|asked: Seq<Call>, clean: Result<(), Text>|
            #[trigger] checked(*there, repo@, old(runner).history(), asked, clean) && match clean {
                Err(error) => final(runner).history() == asked && unit_result(r) == Err::<
                    (),
                    Text,
                >(error),
                Ok(()) => switched(
                    repo@,
                    revision@,
                    maybe_str(branch),
                    asked,
                    final(runner).history(),
                    unit_result(r),
                ),
            },
{
    let clean = assert_clean(runner, repo, there);
    let ghost asked = runner.history();
    assert(checked(*there, repo@, old(runner).history(), asked, unit_result(clean)));
    match clean {
        Err(error) => Err(error),
        Ok(()) => switch_to(runner, repo, revision, branch),
    }
}

/// The list that a rebase is handed: the commits one by one with their branches, or
/// just the order of the commits.
pub open spec fn todo_of(plan: MoveView) -> Text {
    if plan.include_descendants {
        explicit_lines(plan, plan.commits)
    } else {
        joined(plan.commits, "\n"@) + "\n"@
    }
}

/// Computes `todo_of`.
pub fn move_todo(plan: &MovePlan) -> (r: String)
    ensures
        r@ == todo_of(plan@),
{
    if plan.include_descendants {
        explicit_rebase_todo(plan)
    } else {
        join(&plan.commits, "\n").concat("\n")
    }
}

/// The list that Git shows the editor, once edited: in the order of a file's lines.
pub fn run_sequence_editor(order: &str, todo: &str) -> (r: Result<String, String>)
    ensures
        todo_result(r) == reordered(todo@, lines_of(order@)),
{
    reorder_todo(todo, &lines(order))
}

/// Whether a rebase works on no branch, and the branch is checked out again behind it.
pub open spec fn detaches(plan: MoveView) -> bool {
    plan.detach_for_rewrite && !plan.include_descendants
}

/// The branch has been left, where the rebase works on none.
pub open spec fn detached(
    repo: Text,
    plan: MoveView,
    before: Seq<Call>,
    after: Seq<Call>,
    r: Result<(), Text>,
) -> bool {
    if detaches(plan) {
        switched(repo, plan.tip_commit, None, before, after, r)
    } else {
        after == before && r is Ok
    }
}

/// Leaves the branch, where the rebase works on none.
fn detach_for_move<R: CommandRunner>(runner: &mut Recorded<R>, repo: &str, plan: &MovePlan) -> (r: Result<
    (),
    String,
>)
    ensures
        detached(
            repo@,
            plan@,
            old(runner).history(),
            final(runner).history(),
            unit_result(r),
        ),
{
    if plan.detach_for_rewrite && !plan.include_descendants {
        switch_to(runner, repo, plan.tip_commit.as_str(), None)
    } else {
        Ok(())
    }
}

/// The command of the program that edits Git's list with a file.
pub open spec fn editor_command(plan: MoveView, executable: Text, file: Text) -> Text {
    shell_word(executable) + (if plan.include_descendants {
        " todo-editor "@
    } else {
        " sequence-editor "@
    }) + shell_word(file)
}

/// The arguments of a rebase that carries out a plan.
pub open spec fn rebase_args(plan: MoveView) -> Seq<Text> {
    seq![
        "-c"@,
        "rebase.abbreviateCommands=false"@,
        "rebase"@,
        "--interactive"@,
        "--update-refs"@,
    ] + (if plan.include_descendants {
        seq![
            "--onto"@,
            plan.destination,
            if plan.commits.len() == plan.carried_count {
                plan.source_base
            } else {
                plan.destination
            },
            plan.checkout_branch,
        ]
    } else if plan.detach_for_rewrite {
        seq![plan.base]
    } else {
        seq![plan.base, plan.tip]
    })
}

/// The run of a rebase that carries out a plan.
pub open spec fn rebase_call(
    repo: Text,
    plan: MoveView,
    executable: Text,
    file: Text,
    reply: Result<Text, Text>,
) -> Call {
    Call {
        program: "git"@,
        args: rebase_args(plan),
        repo,
        input: None,
        env: seq![("GIT_SEQUENCE_EDITOR"@, editor_command(plan, executable, file))],
        reply,
    }
}

/// A rebase has been run with a list in a file, and behind it the branch has been checked
/// out again, where the rebase worked on none.
pub open spec fn rebased(
    repo: Text,
    plan: MoveView,
    executable: Text,
    file: Text,
    before: Seq<Call>,
    after: Seq<Call>,
    r: Result<(), Text>,
) -> bool {
    let answer = after[before.len() as int].reply;
    let ran = before.push(rebase_call(repo, plan, executable, file, answer));
    if answer is Ok && detaches(plan) {
        switched(repo, plan.tip_commit, Some(plan.checkout_branch), ran, after, r)
    } else {
        after == ran && r == done(answer)
    }
}

/// Runs a rebase with a list in a file that the program itself hands to Git.
fn rebase<R: CommandRunner>(
    runner: &mut Recorded<R>,
    repo: &str,
    plan: &MovePlan,
    executable: &str,
    file: &str,
) -> (r: Result<(), String>)
    ensures
        rebased(
            repo@,
            plan@,
            executable@,
            file@,
            old(runner).history(),
            final(runner).history(),
            unit_result(r),
        ),
{
    let ghost p = plan@;
    let mut args: Vec<String> = Vec::new();
    args.push("-c".to_owned());
    args.push("rebase.abbreviateCommands=false".to_owned());
    args.push("rebase".to_owned());
    args.push("--interactive".to_owned());
    args.push("--update-refs".to_owned());
    let mut editor = shell_quote(executable);
    if plan.include_descendants {
        args.push("--onto".to_owned());
        args.push(plan.destination.clone());
        if plan.commits.len() == plan.carried_count {
            args.push(plan.source_base.clone());
        } else {
            args.push(plan.destination.clone());
        }
        args.push(plan.checkout_branch.clone());
        editor.append(" todo-editor ");
    } else {
        args.push(plan.base.clone());
        if !plan.detach_for_rewrite {
            args.push(plan.tip.clone());
        }
        editor.append(" sequence-editor ");
    }
    editor.append(shell_quote(file).as_str());
    assert(texts(args@) =~= rebase_args(p));
    let mut env: Vec<(String, String)> = Vec::new();
    env.push(("GIT_SEQUENCE_EDITOR".to_owned(), editor));
    assert(views(env@) =~= seq![
        ("GIT_SEQUENCE_EDITOR"@, editor_command(p, executable@, file@)),
    ]);
    match runner.run("git", &args, repo, &None, &env) {
        Err(error) => Err(error),
        Ok(_) => {
            if plan.detach_for_rewrite && !plan.include_descendants {
                switch_to(
                    runner,
                    repo,
                    plan.tip_commit.as_str(),
                    Some(plan.checkout_branch.as_str()),
                )
            } else {
                Ok(())
            }
        },
    }
}

/// A file has been removed.
pub open spec fn removed<D: Fn(&str)>(remove: D, file: Text) -> bool {
    exists|gone: &str| gone@ == file && #[trigger] call_ensures(remove, (gone,), ())
}

/// A plan has been carried out: the branch left where that is needed, the list written
/// to a file by `write`, a rebase run with it, and the file removed. What fails ends it.
pub open spec fn moved<W: Fn(&str) -> Result<(String, String), String>, D: Fn(&str)>(
    write: W,
    remove: D,
    repo: Text,
    plan: MoveView,
    before: Seq<Call>,
    after: Seq<Call>,
    r: Result<(), Text>,
) -> bool {
    exists|left: Seq<Call>, leaving: Result<(), Text>|
        #[trigger] detached(repo, plan, before, left, leaving) && match leaving {
            Err(error) => after == left && r == Err::<(), Text>(error),
            Ok(()) => exists|list: &str, place: Result<(String, String), String>|
                list@ == todo_of(plan) && #[trigger] call_ensures(write, (list,), place)
                    && match place {
                    Err(error) => after == left && r == Err::<(), Text>(error@),
                    Ok((executable, file)) => rebased(
                        repo,
                        plan,
                        executable@,
                        file@,
                        left,
                        after,
                        r,
                    ) && removed(remove, file@),
                },
        }
}

/// Carries out a plan in a repository where nothing is changed and no operation is under
/// way. `there` tells whether there is anything at a path; `write` puts a list into a file
/// and tells the program and the file; `remove` removes the file.
pub fn apply_move<
    R: CommandRunner,
    P: Fn(&str) -> bool,
    W: Fn(&str) -> Result<(String, String), String>,
    D: Fn(&str),
>(
    runner: &mut Recorded<R>,
    repo: &str,
    plan: &MovePlan,
    there: &P,
    write: &W,
    remove: &D,
) -> (r: Result<(), String>)
    requires
        forall|path: &str| #[trigger] call_requires(*there, (path,)),
        forall|list: &str| #[trigger] call_requires(*write, (list,)),
        forall|file: &str| #[trigger] call_requires(*remove, (file,)),
    ensures
        exists|asked: Seq<Call>, clean: Result<(), Text>|
            #[trigger] checked(*there, repo@, old(runner).history(), asked, clean) && match clean {
                Err(error) => final(runner).history() == asked && unit_result(r) == Err::<
                    (),
                    Text,
                >(error),
                Ok(()) => moved(
                    *write,
                    *remove,
                    repo@,
                    plan@,
                    asked,
                    final(runner).history(),
                    unit_result(r),
                ),
            },
{
    let clean = assert_clean(runner, repo, there);
    let ghost asked = runner.history();
    assert(checked(*there, repo@, old(runner).history(), asked, unit_result(clean)));
    match clean {
        Err(error) => {
            return Err(error);
        },
        Ok(()) => {},
    }
    let leaving = detach_for_move(runner, repo, plan);
    let ghost left = runner.history();
    assert(detached(repo@, plan@, asked, left, unit_result(leaving)));
    match leaving {
        Err(error) => {
            return Err(error);
        },
        Ok(()) => {},
    }
    let text = move_todo(plan);
    let list = text.as_str();
    let place = write(list);
    assert(call_ensures(*write, (list,), place));
    match place {
        Err(error) => Err(error),
        Ok((executable, file)) => {
            let r = rebase(runner, repo, plan, executable.as_str(), file.as_str());
            let gone = file.as_str();
            remove(gone);
            assert(call_ensures(*remove, (gone,), ()));
            r
        },
    }
}

} // verus!

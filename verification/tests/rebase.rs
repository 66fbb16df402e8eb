use forkstack::integrations::runner::{CommandRunner, Recorded};
use forkstack::ui::load::{bounded_ref_globs, conflict_label, graph_roots, operation_markers};
use forkstack::ui::local::{self, graph_of_log, log_args, parse_log, LogSnapshot};
use forkstack::ui::model::MovePlan;
use forkstack::ui::rebase::{
    apply_move, assert_clean, checkout, checkout_at, move_todo, run_sequence_editor,
};
use forkstack::ui::todo::{explicit_rebase_todo, reorder_todo, shell_quote};

#[test]
fn git_parses_and_reorders_rebase_blocks() {
    let todo = "pick aaaaaaa first\nupdate-ref refs/heads/a\n\npick bbbbbbb second\n# help\n";
    let result = reorder_todo(todo, &vec!["bbbbbbbb".into(), "aaaaaaaa".into()]).unwrap();
    assert!(result.find("pick bbbbbbb").unwrap() < result.find("pick aaaaaaa").unwrap());
    assert!(result.find("refs/heads/a").unwrap() > result.find("pick aaaaaaa").unwrap());
}

#[test]
fn parses_and_reorders_rebase_blocks() {
    let todo = "pick aaaaaaa first\nupdate-ref refs/heads/a\n\npick bbbbbbb second\n# help\n";
    let result = run_sequence_editor("bbbbbbbb\naaaaaaaa\n", todo).unwrap();
    assert!(result.find("pick bbbbbbb").unwrap() < result.find("pick aaaaaaa").unwrap());
    assert!(result.find("refs/heads/a").unwrap() > result.find("pick aaaaaaa").unwrap());
}

#[test]
fn graph_roots_are_limited_to_forkstack_and_configured_base_refs() {
    assert_eq!(
        bounded_ref_globs("upstream", "trunk"),
        [
            "refs/heads/fs-head/*",
            "refs/heads/fs-base/*",
            "refs/heads/trunk",
            "refs/remotes/upstream/fs-head/*",
            "refs/remotes/upstream/fs-base/*",
            "refs/remotes/upstream/trunk",
        ]
    );
}

#[test]
fn git_conflict_detection_labels_kind_and_files() {
    let markers = vec![("rebase".into(), "abc".into())];
    assert_eq!(
        conflict_label(&markers, &vec!["src/lib.rs".into()]).unwrap(),
        "incoming, conflict (rebase: src/lib.rs)"
    );
    assert_eq!(conflict_label(&vec![], &vec![]), None);
}

#[test]
fn conflict_detection_labels_kind_and_files() {
    let markers = vec![("rebase".into(), "abc".into())];
    assert_eq!(
        conflict_label(&markers, &vec!["src/lib.rs".into()]).unwrap(),
        "incoming, conflict (rebase: src/lib.rs)"
    );
    assert_eq!(
        conflict_label(&markers, &vec![]).unwrap(),
        "incoming, conflict (rebase)"
    );
    assert_eq!(conflict_label(&vec![], &vec![]), None);
}

fn insertion() -> MovePlan {
    MovePlan {
        selected: "beta2".into(),
        destination: "alpha2".into(),
        include_descendants: true,
        base: "alpha2".into(),
        source_base: "beta1".into(),
        carried_count: 2,
        tip: "fs-head/gamma/3".into(),
        tip_commit: "gamma3".into(),
        detach_for_rewrite: true,
        checkout_branch: "fs-head/gamma/3".into(),
        ref_updates: vec![
            ("beta2".into(), "fs-head/beta/2".into()),
            ("beta3".into(), "fs-head/beta/3".into()),
            ("alpha3".into(), "fs-head/alpha/3".into()),
            ("gamma3".into(), "fs-head/gamma/3".into()),
        ],
        commits: vec![
            "beta2".into(),
            "beta3".into(),
            "alpha3".into(),
            "gamma3".into(),
        ],
    }
}

#[test]
fn explicit_todo_replays_all_commits_and_updates_non_tip_refs() {
    let plan = insertion();

    assert_eq!(
        explicit_rebase_todo(&plan),
        "pick beta2\n\
         update-ref refs/heads/fs-head/beta/2\n\
         pick beta3\n\
         update-ref refs/heads/fs-head/beta/3\n\
         pick alpha3\n\
         update-ref refs/heads/fs-head/alpha/3\n\
         pick gamma3\n"
    );
}

#[test]
fn parses_git_log_records_and_ordered_parents() {
    let input = "bbbb\x1faaaa cccc\x1fmerge subject\x1e\naaaa\x1f\x1froot\x1e\n";
    let (commits, order) = parse_log(input).unwrap();
    assert_eq!(order, vec!["bbbb".to_owned(), "aaaa".to_owned()]);
    assert_eq!(
        commits.get("bbbb").unwrap().parents,
        vec!["aaaa".to_owned(), "cccc".to_owned()]
    );
    assert_eq!(commits.get("aaaa").unwrap().subject, "root");
}

#[test]
fn log_records_of_another_form_are_errors() {
    assert_eq!(
        parse_log("bbbb\x1faaaa\x1e").err(),
        Some("git log returned an unexpected record".to_owned())
    );
    let (commits, order) = parse_log("\n\r\x1e\n").unwrap();
    assert_eq!(commits.len(), 0);
    assert!(order.is_empty());
    let (commits, _) = parse_log("a\x1f\x1fone\x1ftwo\x1e").unwrap();
    assert_eq!(commits.get("a").unwrap().subject, "one\x1ftwo");
}

#[test]
fn a_graph_is_made_of_the_log_and_the_refs() {
    let graph = graph_of_log(&LogSnapshot {
        head: "bbbb".into(),
        branch: Some("main".into()),
        markers: vec![("merge".into(), "cccc".into())],
        files: "one\ntwo\n".into(),
        log: "bbbb\x1faaaa\x1fsecond\x1e\ncccc\x1faaaa\x1fother\x1e\naaaa\x1f\x1froot\x1e\n".into(),
        refs: "bbbb\0refs/heads/main\nbbbb\0refs/heads/fs-head/a/1\naaaa\0refs/remotes/origin/main\naaaa\0refs/remotes/origin/HEAD\naaaa\0refs/tags/v1\nzzzz\0refs/heads/gone\nnonsense".into(),
    })
    .unwrap();
    let head = graph.commits.get("bbbb").unwrap();
    assert!(head.is_head);
    assert_eq!(head.local_refs, ["fs-head/a/1", "main"]);
    assert_eq!(
        head.conflict.as_deref(),
        Some("local (conflict in progress)")
    );
    let root = graph.commits.get("aaaa").unwrap();
    assert_eq!(root.remote_refs, ["origin/main"]);
    assert_eq!(root.tags, ["v1"]);
    assert_eq!(
        graph.commits.get("cccc").unwrap().conflict.as_deref(),
        Some("incoming, conflict (merge: one, two)")
    );
    assert_eq!(graph.order, ["bbbb", "cccc", "aaaa"]);
    assert_eq!(
        log_args(&vec![("merge".into(), "cccc".into())]).last().unwrap(),
        "cccc"
    );
}

#[test]
fn reordering_keeps_every_line() {
    let todo = "noop\npick aaa one\nexec x\n# c\npick bbb two\n\n";
    let result = reorder_todo(todo, &vec!["bbb1".into(), "aaa1".into()]).unwrap();
    let mut before: Vec<_> = todo.split_inclusive('\n').collect();
    let mut after: Vec<_> = result.split_inclusive('\n').collect();
    before.sort();
    after.sort();
    assert_eq!(before, after);
    assert_eq!(result, "pick bbb two\n\npick aaa one\nexec x\nnoop\n# c\n");
}

#[test]
fn commits_that_the_list_does_not_name_are_errors() {
    assert_eq!(
        reorder_todo("pick aaa one\n", &vec!["bbb".into()]).unwrap_err(),
        "could not identify bbb in rebase todo"
    );
    assert_eq!(
        reorder_todo("pick aa one\npick aaa two\n", &vec!["aaaa".into()]).unwrap_err(),
        "could not identify aaaa in rebase todo"
    );
    assert_eq!(
        reorder_todo("pick \n", &vec![]).unwrap_err(),
        "invalid rebase todo"
    );
    assert_eq!(
        run_sequence_editor("bbb\naaa\n", "pick aaa 1\npick bbb 2\n").unwrap(),
        "pick bbb 2\npick aaa 1\n"
    );
}

#[test]
fn shell_words_are_quoted() {
    assert_eq!(shell_quote("plain"), "'plain'");
    assert_eq!(shell_quote("it's"), "'it'\\''s'");
    assert_eq!(shell_quote(""), "''");
}

type Call = (Vec<String>, Vec<(String, String)>);

struct Runner {
    replies: Vec<Result<String, String>>,
    calls: Vec<Call>,
}

fn recorded(replies: &[Result<&str, &str>]) -> Recorded<Runner> {
    Recorded::new(Runner {
        replies: replies
            .iter()
            .map(|reply| match reply {
                Ok(output) => Ok((*output).into()),
                Err(error) => Err((*error).into()),
            })
            .collect(),
        calls: Vec::new(),
    })
}

impl CommandRunner for Runner {
    fn run(
        &mut self,
        program: &str,
        args: &Vec<String>,
        repo: &str,
        _input: &Option<String>,
        env: &Vec<(String, String)>,
    ) -> Result<String, String> {
        assert_eq!(program, "git");
        assert_eq!(repo, "repo");
        self.calls.push((args.clone(), env.clone()));
        self.replies.remove(0)
    }
}

const CLEAN: [Result<&str, &str>; 5] = [Ok(""), Err(""), Err(""), Err(""), Ok("/repo/.git")];

/// Replies of a clean repository, and then others.
fn clean(replies: &[Result<&str, &str>]) -> Recorded<Runner> {
    recorded(&[&CLEAN[..], replies].concat())
}

fn nowhere(_: &str) -> bool {
    false
}

#[test]
fn history_is_rewritten_only_in_a_clean_repository() {
    let mut clean = recorded(&CLEAN);
    assert_eq!(assert_clean(&mut clean, "repo", &nowhere), Ok(()));
    assert_eq!(clean.runner().calls[0].0, ["status", "--porcelain"]);
    assert_eq!(
        clean.runner().calls[2].0,
        ["rev-parse", "--verify", "-q", "MERGE_HEAD"]
    );

    let mut dirty = recorded(&[Ok(" M file")]);
    assert_eq!(
        assert_clean(&mut dirty, "repo", &nowhere),
        Err("the working tree must be clean".into())
    );
    let mut busy = recorded(&[Ok(""), Err(""), Err(""), Ok("abc")]);
    assert_eq!(
        assert_clean(&mut busy, "repo", &nowhere),
        Err("finish the current Git operation first".into())
    );
    let mut broken = recorded(&[Err("not a repository")]);
    assert_eq!(
        assert_clean(&mut broken, "repo", &nowhere),
        Err("not a repository".into())
    );
    for name in ["/repo/.git/rebase-merge", "/repo/.git/rebase-apply"] {
        let mut rebasing = recorded(&CLEAN);
        assert_eq!(
            assert_clean(&mut rebasing, "repo", &|path: &str| path == name),
            Err("finish the current Git operation first".into())
        );
    }

    let mut dirty = recorded(&[Ok(" M file")]);
    assert!(checkout(&mut dirty, "repo", "abc", &nowhere).is_err());
    assert_eq!(dirty.runner().calls.len(), 1);
    let mut dirty = recorded(&[Ok(" M file")]);
    let list = |_: &str| -> Result<(String, String), String> { panic!("a list is written") };
    assert!(apply_move(
        &mut dirty,
        "repo",
        &insertion(),
        &nowhere,
        &list,
        &|_: &str| ()
    )
    .is_err());
    assert_eq!(dirty.runner().calls.len(), 1);
}

#[test]
fn a_checkout_uses_the_only_branch_or_none() {
    let mut one = clean(&[Ok("topic\n\n"), Ok("")]);
    checkout(&mut one, "repo", "abc", &nowhere).unwrap();
    assert_eq!(
        one.runner().calls[5].0,
        [
            "for-each-ref",
            "--format=%(refname:short)",
            "--points-at",
            "abc",
            "refs/heads"
        ]
    );
    assert_eq!(one.runner().calls[6].0, ["switch", "topic"]);
    let mut two = clean(&[Ok("a\nb"), Ok("")]);
    checkout(&mut two, "repo", "abc", &nowhere).unwrap();
    assert_eq!(two.runner().calls[6].0, ["switch", "--detach", "abc"]);
    let mut failing = clean(&[Err("bad revision")]);
    assert_eq!(
        checkout(&mut failing, "repo", "abc", &nowhere),
        Err("bad revision".into())
    );
    let mut given = clean(&[Ok("")]);
    checkout_at(&mut given, "repo", "abc", Some("topic"), &nowhere).unwrap();
    assert_eq!(given.runner().calls[5].0, ["switch", "topic"]);
    let mut none = clean(&[Ok("")]);
    checkout_at(&mut none, "repo", "abc", None, &nowhere).unwrap();
    assert_eq!(none.runner().calls[5].0, ["switch", "--detach", "abc"]);
}

/// Moves commits with a list that is put into `file`.
fn moved(
    runner: &mut Recorded<Runner>,
    plan: &MovePlan,
    executable: &str,
    file: &str,
) -> Result<(), String> {
    let removed = std::cell::Cell::new(false);
    let r = apply_move(
        runner,
        "repo",
        plan,
        &nowhere,
        &|list: &str| {
            assert_eq!(list, move_todo(plan));
            Ok((executable.into(), file.into()))
        },
        &|gone: &str| {
            assert_eq!(gone, file);
            removed.set(true);
        },
    );
    assert!(removed.get());
    r
}

#[test]
fn a_substack_is_moved_by_an_explicit_list() {
    let mut plan = insertion();
    assert_eq!(move_todo(&plan), explicit_rebase_todo(&plan));
    let mut runner = clean(&[Ok("")]);
    moved(&mut runner, &plan, "/bin/fork stack", "/tmp/x.todo").unwrap();
    let (args, env) = &runner.runner().calls[5];
    assert_eq!(
        args,
        &[
            "-c",
            "rebase.abbreviateCommands=false",
            "rebase",
            "--interactive",
            "--update-refs",
            "--onto",
            "alpha2",
            "alpha2",
            "fs-head/gamma/3",
        ]
    );
    assert_eq!(
        env,
        &[(
            "GIT_SEQUENCE_EDITOR".to_owned(),
            "'/bin/fork stack' todo-editor '/tmp/x.todo'".to_owned()
        )]
    );
    plan.carried_count = 4;
    let mut whole = clean(&[Ok("")]);
    moved(&mut whole, &plan, "x", "y").unwrap();
    assert_eq!(whole.runner().calls[5].0[7], "beta1");
}

#[test]
fn a_commit_is_moved_by_a_new_order() {
    let mut plan = insertion();
    plan.include_descendants = false;
    assert_eq!(move_todo(&plan), "beta2\nbeta3\nalpha3\ngamma3\n");
    let mut runner = clean(&[Ok(""), Ok(""), Ok("")]);
    moved(&mut runner, &plan, "exe", "file").unwrap();
    assert_eq!(runner.runner().calls[5].0, ["switch", "--detach", "gamma3"]);
    assert_eq!(runner.runner().calls[6].0.last().unwrap(), "alpha2");
    assert_eq!(runner.runner().calls[6].1[0].1, "'exe' sequence-editor 'file'");
    assert_eq!(runner.runner().calls[7].0, ["switch", "fs-head/gamma/3"]);

    let mut failing = clean(&[Ok(""), Err("conflict")]);
    assert_eq!(
        moved(&mut failing, &plan, "exe", "file"),
        Err("conflict".into())
    );
    assert_eq!(failing.runner().calls.len(), 7);
    let mut unwritten = clean(&[Ok("")]);
    assert_eq!(
        apply_move(
            &mut unwritten,
            "repo",
            &plan,
            &nowhere,
            &|_: &str| -> Result<(String, String), String> { Err("no space".into()) },
            &|_: &str| panic!("nothing to remove")
        ),
        Err("no space".into())
    );
    assert_eq!(unwritten.runner().calls.len(), 6);

    plan.detach_for_rewrite = false;
    let mut attached = clean(&[Ok("")]);
    moved(&mut attached, &plan, "exe", "file").unwrap();
    assert_eq!(
        attached.runner().calls[5].0.last().unwrap(),
        "fs-head/gamma/3"
    );
    assert_eq!(attached.runner().calls.len(), 6);
}

#[test]
fn plain_rebases_move_substacks_onto_their_destination() {
    let mut plan = insertion();
    let unused = |_: &str| -> Result<(String, String), String> { panic!("a list is written") };
    let mut runner = clean(&[Ok("")]);
    local::apply_move(&mut runner, "repo", &plan, &nowhere, &unused, &|_: &str| ()).unwrap();
    assert_eq!(
        runner.runner().calls[5].0,
        [
            "rebase",
            "--update-refs",
            "--onto",
            &plan.destination,
            &plan.base,
            &plan.tip
        ]
    );
    plan.include_descendants = false;
    let mut runner = clean(&[Ok("")]);
    local::apply_move(
        &mut runner,
        "repo",
        &plan,
        &nowhere,
        &|list: &str| {
            assert_eq!(list, "beta2\nbeta3\nalpha3\ngamma3\n");
            Ok(("exe".into(), "file".into()))
        },
        &|_: &str| (),
    )
    .unwrap();
    assert_eq!(
        runner.runner().calls[5].1[0].1,
        "'exe' --sequence-editor 'file'"
    );
}

#[test]
fn a_graph_is_read_through_git() {
    let log = "bbbb\x1faaaa\x1ftwo\x1e\naaaa\x1f\x1fone\x1e";
    let mut runner = recorded(&[
        Ok(".git"),
        Ok("bbbb"),
        Ok("main"),
        Ok("aaaa"),
        Err(""),
        Err(""),
        Ok("file"),
        Ok(log),
        Ok("bbbb\0refs/heads/main\naaaa\0refs/remotes/origin/HEAD"),
    ]);
    let graph = local::load_graph(&mut runner, "repo").unwrap();
    assert_eq!(graph.order, ["bbbb", "aaaa"]);
    assert_eq!(graph.branch.as_deref(), Some("main"));
    assert_eq!(runner.runner().calls[7].0.last().unwrap(), "aaaa");
    assert_eq!(
        graph.commits.get("aaaa").unwrap().conflict.as_deref(),
        Some("incoming, conflict (rebase: file)")
    );
    assert!(graph.commits.get("aaaa").unwrap().remote_refs.is_empty());
    let mut detached = recorded(&[
        Ok(".git"),
        Ok("bbbb"),
        Err(""),
        Err(""),
        Err(""),
        Err(""),
        Err(""),
        Err("no log"),
    ]);
    assert_eq!(
        local::load_graph(&mut detached, "repo").err().as_deref(),
        Some("no log")
    );
}

#[test]
fn operations_in_progress_are_named_by_their_commits() {
    let oid = "0123456789012345678901234567890123456789";
    let markers = operation_markers(
        &Some(format!("{oid}\n")),
        &None,
        &Some("not an id".into()),
    );
    assert_eq!(
        markers,
        [
            ("rebase".to_owned(), oid.to_owned()),
            ("cherry-pick".to_owned(), "not".to_owned())
        ]
    );
    let roots = graph_roots(
        &Some("head".into()),
        &vec![
            ("one".into(), "refs/heads/a".into()),
            ("one".into(), "refs/heads/b".into()),
        ],
        &markers,
    );
    assert_eq!(roots, [oid, "head", "one"]);
}

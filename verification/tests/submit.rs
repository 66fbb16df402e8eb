use forkstack::commands::submit::{fetching, SubmitArgs};
use forkstack::dict::Dict;
use forkstack::integrations::git::push_atomic;
use forkstack::integrations::github::{
    create_pr, edit_pr, existing_pr, OpenPullRequest, PullRequest,
};
use forkstack::integrations::runner::{CommandRunner, Recorded};
use forkstack::stack::assign::{
    assign_branches, can_number, commit_record, highest_number, needs_remote_identities,
    read_commits, remote_identities, remote_identity_root, validate_linear_records, CommitRecord,
    RawCommit,
};
use forkstack::stack::heads::{check_head, head_settings, needs_setting, sync_local_heads};
use forkstack::stack::identity::identity_from_message;
use forkstack::stack::linking::link_stack;
use forkstack::stack::names::valid_branch_name;
use forkstack::stack::planning::{parse_stack_log, plan_with_runner};
use forkstack::stack::prepare::prepare_with_runner;
use forkstack::stack::publish::{
    execute, execute_checked, execute_with, published_links, Discovery, PublishAction,
    PublishEvent, Stage,
};
use forkstack::stack::report::{print_plan, print_summary};
use forkstack::stack::rewrite::{check_ref, rewrite_with_identities};
use forkstack::stack::submit::{
    base_reference, fork_of, plan, refresh_updates, remote_sync_scope, stack_table, StackCommit,
    SubmitOptions, SubmitPlan,
};
use forkstack::ui::model::{Commit, Graph};
use std::cell::RefCell;
use std::collections::BTreeMap;
use std::rc::Rc;

fn id(n: u64) -> String {
    format!("{n:040x}")
}

fn raw(n: u64, parent: u64, message: &str) -> RawCommit {
    let mut lines = message.splitn(2, '\n');
    let summary = lines.next().map(str::to_owned);
    let body = lines.next().map(|body| body.trim().to_owned());
    RawCommit {
        id: id(n),
        parents: vec![id(parent)],
        message: format!("{message}\n").into_bytes(),
        summary,
        body,
    }
}

const BASE: u64 = 1;
const FIRST: u64 = 2;
const SECOND: u64 = 3;

fn history() -> Vec<RawCommit> {
    vec![
        raw(FIRST, BASE, "first change"),
        raw(SECOND, FIRST, "second change"),
    ]
}

fn records(raw: &Vec<RawCommit>) -> Vec<CommitRecord> {
    read_commits(raw).unwrap()
}

fn options() -> SubmitOptions {
    SubmitOptions {
        repo: "repo".into(),
        remote: "origin".into(),
        base: "main".into(),
        prefix: Some("draft".into()),
        draft: true,
    }
}

fn draft() -> Option<String> {
    Some("draft".into())
}

fn plan_from(raw: &Vec<RawCommit>, remote: &[&str]) -> SubmitPlan {
    let remote: Vec<String> = remote.iter().map(|name| (*name).into()).collect();
    plan(options(), "example/repo".into(), records(raw), &remote).unwrap()
}

fn branches(commits: &[StackCommit]) -> Vec<&str> {
    commits.iter().map(|step| step.branch.as_str()).collect()
}

/// Records the identities of a plan, with new ids from `next` on.
fn rewritten(plan: SubmitPlan, next: u64) -> SubmitPlan {
    let mut next = next;
    let mut rewriting = rewrite_with_identities(plan);
    while !rewriting.is_done() {
        let step = rewriting.step().unwrap();
        let rev = if step.text.is_some() {
            next += 1;
            id(next - 1)
        } else {
            rewriting.plan.commits[rewriting.index].rev.clone()
        };
        rewriting.finish(step, rev);
    }
    rewriting.into_plan()
}

/// The commits of a plan, as they are read back.
fn committed(commits: &[StackCommit]) -> Vec<RawCommit> {
    commits
        .iter()
        .map(|step| {
            let mut commit = raw(0, 0, step.message.trim_end());
            commit.id = step.rev.clone();
            commit.parents = vec![step.parent.clone()];
            commit
        })
        .collect()
}

#[test]
fn stack_table_matches_python_layout() {
    let entries = vec![
        ("a/1".into(), Some(10), "one".into()),
        ("a/2".into(), Some(11), "two".into()),
    ];
    assert!(stack_table(&entries, "a/1").contains("- -> #10 one"));
    assert!(
        stack_table(&entries, "a/1").find("#11").unwrap()
            < stack_table(&entries, "a/1").find("#10").unwrap()
    );
}

#[test]
fn a_stack_without_numbers_is_shown_by_its_branches() {
    let entries = vec![("a/1".into(), None, "one".into())];
    assert_eq!(
        stack_table(&entries, "a/2"),
        "\n---\nStack (top to bottom):\n-  a/1 one\n---\n"
    );
    assert_eq!(
        stack_table(&Vec::new(), ""),
        "\n---\nStack (top to bottom):\n---\n"
    );
}

#[test]
fn cli_bootstrap_scope_is_limited_to_base_stack_and_active_prefix() {
    let plan = SubmitPlan {
        options: SubmitOptions {
            base: "trunk".into(),
            prefix: Some("topic".into()),
            ..SubmitOptions::default()
        },
        fork: "owner/repo".into(),
        base_ref: "origin/trunk".into(),
        commits: vec![StackCommit {
            rev: "b".into(),
            parent: "a".into(),
            branch: "topic/1".into(),
            subject: "subject".into(),
            body: String::new(),
            message: "subject".into(),
            identity_added: true,
        }],
        updates: Vec::new(),
    };
    let (branches, prefixes) = remote_sync_scope(&plan);
    assert_eq!(branches, ["trunk", "fs-base/topic/1", "fs-head/topic/1"]);
    assert_eq!(prefixes, ["fs-head/topic"]);
}

#[test]
fn branch_assignment_reads_real_commit_history() {
    let mut history = history();
    let initial = assign_branches(records(&history), &draft(), &vec![]).unwrap();
    assert_eq!(branches(&initial), ["draft/1", "draft/2"]);
    assert!(initial.iter().all(|step| step.identity_added));
    let first = vec![raw(FIRST, BASE, "first change")];
    assert!(assign_branches(records(&first), &None, &vec![])
        .unwrap_err()
        .contains("untagged commits require --prefix"));

    history.push(raw(4, SECOND, "imported change\n\nfs-branch: other/6"));
    history.push(raw(5, 4, "new change"));
    let mixed = assign_branches(records(&history), &draft(), &vec![]).unwrap();
    assert_eq!(
        branches(&mixed),
        ["draft/1", "draft/2", "other/6", "draft/3"]
    );
}

#[test]
fn identities_survive_a_real_reorder() {
    let plan = rewritten(plan_from(&history(), &[]), 10);
    let first = plan.commits[0].message.clone();
    let second = plan.commits[1].message.clone();
    let reordered = vec![
        raw(20, BASE, second.trim_end()),
        raw(21, 20, first.trim_end()),
    ];
    let reordered = assign_branches(records(&reordered), &draft(), &vec![]).unwrap();
    assert_eq!(branches(&reordered), ["draft/2", "draft/1"]);
    assert!(reordered.iter().all(|step| !step.identity_added));
}

#[test]
fn diverged_remote_base_keeps_each_stack_heads_actual_parent() {
    let advanced = id(9);
    let stale = [
        "fs-base/draft/1",
        "fs-head/draft/1",
        "fs-base/draft/2",
        "fs-head/draft/2",
    ];
    let plan = plan_from(&history(), &["draft/1", "draft/2"]);
    assert_eq!(plan.base_ref, "origin/main");
    assert_eq!(plan.commits[0].rev, id(FIRST));
    assert_eq!(plan.commits[1].rev, id(SECOND));
    assert_eq!(plan.updates[0].rev, id(BASE));
    assert_eq!(plan.updates[2].rev, id(FIRST));
    for step in &plan.commits {
        let base = plan
            .updates
            .iter()
            .find(|update| update.branch == step.base_branch())
            .unwrap();
        assert_eq!(base.rev, step.parent);
    }

    let mut commits = Dict::new();
    for (name, parents, refs) in [
        (id(BASE), vec![], vec![]),
        (id(FIRST), vec![id(BASE)], vec![]),
        (id(SECOND), vec![id(FIRST)], vec![]),
        (
            advanced.clone(),
            vec![id(BASE)],
            stale
                .iter()
                .map(|name| format!("origin/{name}"))
                .chain(["origin/main".to_owned()])
                .collect(),
        ),
    ] {
        commits.insert(
            name.clone(),
            Commit {
                id: name,
                parents,
                remote_refs: refs,
                ..Commit::default()
            },
        );
    }
    let graph = Graph {
        commits,
        order: vec![advanced.clone(), id(SECOND), id(FIRST), id(BASE)],
        head: id(SECOND),
        branch: Some("main".into()),
    };
    let preview = graph.publish_preview(&plan).unwrap();
    let moved = &preview.commits.get(&advanced).unwrap().remote_refs;
    assert!(moved.contains(&"origin/main".into()));
    assert!(moved
        .iter()
        .all(|name| !name.contains("/fs-base/") && !name.contains("/fs-head/")));
    assert!(preview
        .commits
        .get(&id(FIRST))
        .unwrap()
        .remote_refs
        .contains(&"origin/fs-head/draft/1".into()));
    assert_eq!(
        preview.commits.get(&id(SECOND)).unwrap().parents,
        [id(FIRST)]
    );
}

#[test]
fn divergent_local_head_is_not_overwritten() {
    let mut submit = plan_from(&history(), &["draft/1"]);
    submit.commits.truncate(1);
    submit.commits[0].identity_added = false;
    let mut refs = Dict::new();
    refs.insert("refs/remotes/origin/fs-head/draft/1".into(), id(FIRST));
    refs.insert("refs/heads/fs-head/draft/1".into(), id(SECOND));
    assert!(sync_local_heads(&submit, &vec![], &refs)
        .err()
        .unwrap()
        .contains("divergent local branch"));
}

#[test]
fn local_heads_follow_their_commits() {
    let plan = plan_from(&history(), &[]);
    let mut refs = Dict::new();
    refs.insert("refs/heads/fs-head/draft/1".into(), id(7));
    refs.insert("refs/remotes/origin/fs-head/draft/1".into(), id(7));
    let updates = sync_local_heads(&plan, &vec!["refs/heads/main".into()], &refs).unwrap();
    assert_eq!(updates.len(), 2);
    assert_eq!(updates[0].name, "refs/heads/fs-head/draft/1");
    assert_eq!(updates[0].before, Some(id(7)));
    assert_eq!(updates[0].wanted, id(FIRST));
    assert_eq!(updates[1].before, None);
    assert_eq!(check_head(&updates[0], &Some(id(7))), Ok(()));
    assert_eq!(
        check_head(&updates[0], &None),
        Err("reference refs/heads/fs-head/draft/1 changed while preparing updates".into())
    );
    refs.insert("refs/heads/fs-head/draft/1".into(), id(FIRST));
    refs.insert("refs/heads/fs-head/draft/2".into(), id(SECOND));
    let held = vec!["refs/heads/fs-head/draft/1".into()];
    assert!(sync_local_heads(&plan, &held, &refs).unwrap().is_empty());
    refs.insert("refs/heads/fs-head/draft/1".into(), id(7));
    assert_eq!(
        sync_local_heads(&plan, &held, &refs).err().unwrap(),
        "cannot update \"fs-head/draft/1\": it is checked out in a worktree"
    );
    let mut odd = plan_from(&history(), &[]);
    odd.commits[0].rev = "odd".into();
    assert_eq!(
        sync_local_heads(&odd, &vec![], &refs).err().unwrap(),
        "unable to parse OID - contains invalid characters"
    );
    odd.commits[0].rev = String::new();
    assert_eq!(
        sync_local_heads(&odd, &vec![], &refs).err().unwrap(),
        "unable to parse OID - too short"
    );
    odd.commits[0].rev = "0".repeat(41);
    assert_eq!(
        sync_local_heads(&odd, &vec![], &refs).err().unwrap(),
        "unable to parse OID - too long"
    );
    odd.commits[0].rev = "ABC".into();
    assert_eq!(
        sync_local_heads(&odd, &vec![], &Dict::new()).unwrap()[0].wanted,
        format!("abc{}", "0".repeat(37))
    );
}

#[test]
fn local_heads_track_their_remote_branches() {
    let plan = plan_from(&history(), &[]);
    let settings = head_settings(&plan);
    assert_eq!(
        settings[..2],
        [
            (
                "branch.fs-head/draft/1.remote".to_owned(),
                "origin".to_owned()
            ),
            (
                "branch.fs-head/draft/1.merge".to_owned(),
                "refs/heads/fs-head/draft/1".to_owned()
            ),
        ]
    );
    assert_eq!(settings.len(), 4);
    assert!(needs_setting(&None, "origin"));
    assert!(needs_setting(&Some("fork".into()), "origin"));
    assert!(!needs_setting(&Some("origin".into()), "origin"));
}

#[derive(Debug)]
struct FakePr {
    number: u64,
    head: String,
    base: String,
    title: String,
    body: String,
    draft: bool,
}

#[derive(Default)]
struct FakeRunner {
    prs: Vec<FakePr>,
    pushes: Vec<Vec<String>>,
    events: Vec<String>,
}

fn option(args: &[String], name: &str) -> String {
    args.iter()
        .position(|arg| arg == name)
        .and_then(|index| args.get(index + 1))
        .unwrap_or_else(|| panic!("missing {name} in {args:?}"))
        .clone()
}

impl CommandRunner for FakeRunner {
    fn run(
        &mut self,
        program: &str,
        args: &Vec<String>,
        _repo: &str,
        _input: &Option<String>,
        _env: &Vec<(String, String)>,
    ) -> Result<String, String> {
        if program == "git" {
            assert_eq!(args[0], "push");
            self.pushes.push(args.clone());
            self.events.push("git:push".into());
            return Ok(String::new());
        }
        assert_eq!(program, "gh");
        self.events.push(format!("gh:{}", args[1]));
        match args[1].as_str() {
            "list" => {
                let head = option(args, "--head");
                Ok(self
                    .prs
                    .iter()
                    .find(|pr| pr.head == head)
                    .map_or_else(|| "[]".into(), |pr| format!("{} {}", pr.number, pr.base)))
            }
            "create" => {
                let number = 101 + self.prs.len() as u64;
                self.prs.push(FakePr {
                    number,
                    head: option(args, "--head"),
                    base: option(args, "--base"),
                    title: option(args, "--title"),
                    body: option(args, "--body"),
                    draft: args.iter().any(|arg| arg == "--draft"),
                });
                Ok(format!("https://github.com/example/repo/pull/{number}"))
            }
            "edit" => {
                let number: u64 = args[2].parse().unwrap();
                let pr = self.prs.iter_mut().find(|pr| pr.number == number).unwrap();
                pr.title = option(args, "--title");
                pr.body = option(args, "--body");
                Ok(String::new())
            }
            other => panic!("unexpected gh invocation {other:?}: {args:?}"),
        }
    }
}

fn parse(text: &str) -> Result<Vec<PullRequest>, String> {
    if text == "[]" {
        return Ok(Vec::new());
    }
    let (number, base) = text.split_once(' ').ok_or("not a pull request")?;
    Ok(vec![PullRequest {
        number: number.parse().map_err(|_| "not a number".to_owned())?,
        base_ref_name: base.into(),
    }])
}

fn open(runner: &Recorded<FakeRunner>, number: u64) -> OpenPullRequest {
    let pr = runner
        .runner()
        .prs
        .iter()
        .find(|pr| pr.number == number)
        .unwrap();
    OpenPullRequest {
        id: number.to_string(),
        number,
        base_ref_name: pr.base.clone(),
        title: pr.title.clone(),
        body: pr.body.clone(),
        url: format!("https://github.com/example/repo/pull/{number}"),
    }
}

/// Carries a publication out; gives what it reported and the plan as it ended.
fn publish(
    plan: SubmitPlan,
    runner: &mut Recorded<FakeRunner>,
    next: u64,
) -> Result<(Vec<String>, SubmitPlan), String> {
    let mut reports = Vec::new();
    let (mut state, mut output) = execute(plan);
    loop {
        reports.extend(output.reports);
        let event = match output.action {
            PublishAction::Discover(heads) => {
                let mut by_head = Dict::new();
                for head in heads {
                    if let Some(pr) = existing_pr(runner, "repo", "example/repo", &head, parse)? {
                        by_head.insert(head, open(runner, pr.number));
                    }
                }
                PublishEvent::Discovered(Discovery {
                    repository_id: "R".into(),
                    by_head,
                })
            }
            PublishAction::Rewrite => {
                let mut plan = plan_from(&history(), &[]);
                std::mem::swap(&mut plan, &mut state.plan);
                state.plan = plan_from(&history(), &[]);
                PublishEvent::Rewritten(rewritten(plan, next))
            }
            PublishAction::SyncHeads => {
                sync_local_heads(&state.plan, &vec![], &Dict::new())?;
                PublishEvent::HeadsSynced
            }
            PublishAction::Push(updates) => {
                push_atomic(runner, "repo", "origin", &updates)?;
                PublishEvent::Pushed
            }
            PublishAction::Create {
                repository_id,
                requests,
            } => {
                assert_eq!(repository_id, "R");
                let mut created = Vec::new();
                for request in requests {
                    create_pr(
                        runner,
                        "repo",
                        "example/repo",
                        &request.base,
                        &request.head,
                        &request.title,
                        &request.body,
                        request.draft,
                    )?;
                    let number = runner.runner().prs.last().unwrap().number;
                    created.push(open(runner, number));
                }
                PublishEvent::Created(created)
            }
            PublishAction::Edit(edits) => {
                for edit in edits {
                    let number = edit.id.parse().unwrap();
                    edit_pr(
                        runner,
                        "repo",
                        "example/repo",
                        number,
                        &edit.title,
                        &edit.body,
                    )?;
                }
                PublishEvent::Edited
            }
            PublishAction::Link(link) => {
                assert_eq!(link.branches.len(), state.plan.commits.len());
                assert_eq!(link.desired.len(), state.plan.commits.len());
                PublishEvent::Linked
            }
            PublishAction::Finish => return Ok((reports, state.plan)),
        };
        let next = execute_with(state, event)?;
        state = next.0;
        output = next.1;
    }
}

#[test]
fn execute_creates_and_then_restacks_pull_requests() {
    let mut runner = Recorded::new(FakeRunner::default());
    let (reports, first) = publish(plan_from(&history(), &[]), &mut runner, 10).unwrap();
    assert_eq!(
        reports,
        [
            "recording stable fs-branch trailers",
            "updating local PR head branches",
            "pushing PR base and head refs",
            "draft/1: created https://github.com/example/repo/pull/101",
            "draft/2: created https://github.com/example/repo/pull/102",
            "\n2 pull requests in example/repo.",
        ]
    );
    assert_eq!(
        identity_from_message(&first.commits[0].message).unwrap(),
        Some("draft/1".into())
    );
    {
        let state = runner.runner();
        assert_eq!(state.prs.len(), 2);
        assert_eq!(state.prs[0].head, "fs-head/draft/1");
        assert_eq!(state.prs[0].base, "fs-base/draft/1");
        assert_eq!(state.prs[1].head, "fs-head/draft/2");
        assert_eq!(state.prs[1].base, "fs-base/draft/2");
        assert!(state.prs.iter().all(|pr| pr.draft));
        assert!(state.prs[0].body.contains("- -> #101 first change"));
        assert_eq!(state.pushes.len(), 1);
        assert!(state.pushes[0].contains(&"--atomic".into()));
        assert!(state.pushes[0].contains(&"--force-with-lease".into()));
    }

    let seeded = committed(&first.commits);
    let mut reordered_second = raw(20, BASE, "");
    reordered_second.message = seeded[1].message.clone();
    reordered_second.summary = seeded[1].summary.clone();
    reordered_second.body = seeded[1].body.clone();
    let mut reordered_first = raw(21, 20, "");
    reordered_first.message = seeded[0].message.clone();
    reordered_first.summary = seeded[0].summary.clone();
    reordered_first.body = seeded[0].body.clone();
    let second = plan_from(&vec![reordered_second, reordered_first], &[]);
    let (reports, second) = publish(second, &mut runner, 30).unwrap();
    assert_eq!(
        reports,
        [
            "updating local PR head branches",
            "pushing PR base and head refs",
            "draft/2: reusing #102",
            "draft/1: reusing #101",
            "\n2 pull requests in example/repo.",
        ]
    );
    let head = |branch: &str| {
        second
            .updates
            .iter()
            .find(|update| update.branch == branch)
            .unwrap()
            .rev
            .clone()
    };
    assert_eq!(head("fs-head/draft/1"), id(21));
    assert_eq!(head("fs-head/draft/2"), id(20));
    assert!(runner.runner().pushes[1].contains(&format!("{}:refs/heads/fs-head/draft/1", id(21))));
    let state = runner.runner();
    assert_eq!(state.prs.len(), 2);
    assert_eq!(state.pushes.len(), 2);
    assert_eq!(
        &state.events[7..],
        ["gh:list", "gh:list", "git:push", "gh:edit", "gh:edit"]
    );
}

#[test]
fn publishing_again_changes_no_pull_request() {
    let mut runner = Recorded::new(FakeRunner::default());
    let (_, first) = publish(plan_from(&history(), &[]), &mut runner, 10).unwrap();
    let again = plan_from(&committed(&first.commits), &[]);
    publish(again, &mut runner, 30).unwrap();
    assert_eq!(&runner.runner().events[7..], ["gh:list", "gh:list", "git:push"]);
}

#[test]
fn a_pull_request_on_another_base_stops_the_publication() {
    let mut github = FakeRunner::default();
    github.prs.push(FakePr {
        number: 7,
        head: "fs-head/draft/1".into(),
        base: "main".into(),
        title: String::new(),
        body: String::new(),
        draft: false,
    });
    let mut runner = Recorded::new(github);
    assert_eq!(
        publish(plan_from(&history(), &[]), &mut runner, 10).unwrap_err(),
        "PR #7 targets \"main\"; expected \"fs-base/draft/1\""
    );
    assert!(runner.runner().pushes.is_empty());
}

#[test]
fn replies_that_are_not_pull_requests_are_errors() {
    let mut runner = Recorded::new(FakeRunner::default());
    assert_eq!(
        existing_pr(&mut runner, "repo", "example/repo", "head", |_| Err(
            "no".into()
        )),
        Err("could not parse gh output: no".into())
    );
    assert_eq!(
        existing_pr(&mut runner, "repo", "example/repo", "head", parse),
        Ok(None)
    );
}

#[test]
fn checked_execute_detects_a_new_identity_in_the_active_prefix() {
    let mut commits = committed(&rewritten(plan_from(&history(), &[]), 10).commits);
    let tip = commits[1].id.clone();
    let mut third = raw(30, 0, "third change");
    third.parents = vec![tip];
    commits.push(third);
    let expected = plan_from(&commits, &[]);
    assert_eq!(expected.commits.len(), 3);
    assert_eq!(expected.commits[2].branch, "draft/3");
    assert!(expected.commits[2].identity_added);

    let (branches, prefixes) = remote_sync_scope(&expected);
    assert_eq!(prefixes, ["fs-head/draft"]);
    assert!(!branches.contains(&"fs-head/other/9".to_owned()));

    let names = vec![Some("refs/remotes/origin/fs-head/draft/4".to_owned()), None];
    let remote = remote_identities(&names, "origin", "draft");
    assert_eq!(remote, ["draft/4"]);
    let error = execute_checked(
        plan(options(), "example/repo".into(), records(&commits), &remote).unwrap(),
        &expected,
    )
    .err()
    .unwrap();
    assert!(
        error.contains("publish plan changed after fetch"),
        "{error}"
    );
    let fresh = plan(options(), "example/repo".into(), records(&commits), &remote).unwrap();
    assert_eq!(fresh.commits[2].branch, "draft/5");
}

type Refs = Rc<RefCell<BTreeMap<String, String>>>;

/// A repository and its remote.
struct World {
    remote: BTreeMap<String, String>,
    local: Refs,
    commits: Vec<RawCommit>,
    calls: Vec<Vec<String>>,
}

impl CommandRunner for World {
    fn run(
        &mut self,
        program: &str,
        args: &Vec<String>,
        repo: &str,
        _input: &Option<String>,
        _env: &Vec<(String, String)>,
    ) -> Result<String, String> {
        assert_eq!((program, repo), ("git", "repo"));
        self.calls.push(args.clone());
        match args[0].as_str() {
            "ls-remote" => Ok(self
                .remote
                .iter()
                .filter(|(name, _)| {
                    args[5..].iter().any(|wanted| match wanted.strip_suffix('*') {
                        Some(root) => name.starts_with(root),
                        None => *name == wanted,
                    })
                })
                .map(|(name, target)| format!("{target}\t{name}\n"))
                .collect()),
            "fetch" => {
                for refspec in &args[5..] {
                    let (source, destination) = refspec[1..].split_once(':').unwrap();
                    self.local
                        .borrow_mut()
                        .insert(destination.into(), self.remote[source].clone());
                }
                Ok(String::new())
            }
            "remote" => Ok("git@github.com:example/repo.git".into()),
            "log" => {
                let base = self.local.borrow()["refs/remotes/origin/main"].clone();
                let next = self.commits.iter().position(|commit| commit.id == base);
                Ok(log_of(&self.commits[next.map_or(0, |at| at + 1)..]))
            }
            "for-each-ref" => Ok(self
                .local
                .borrow()
                .keys()
                .filter(|name| name.starts_with(&args[2]))
                .map(|name| format!("{name}\n"))
                .collect()),
            other => panic!("unexpected git invocation {other:?}"),
        }
    }
}

fn refs(all: &[(&str, u64)]) -> BTreeMap<String, String> {
    all.iter()
        .map(|(name, target)| (format!("refs/{name}"), id(*target)))
        .collect()
}

/// Prepares a plan in a repository with a remote.
fn prepared(
    runner: &mut Recorded<World>,
    expected: Option<&SubmitPlan>,
) -> Result<SubmitPlan, String> {
    let refs: Refs = runner.runner().local.clone();
    let read = |repo: &str, exact: &Vec<String>, patterns: &Vec<String>| {
        assert_eq!(repo, "repo");
        let mut found = Dict::new();
        for (name, target) in refs.borrow().iter() {
            let wanted = |pattern: &String| name.starts_with(pattern.trim_end_matches('*'));
            if exact.contains(name) || patterns.iter().any(wanted) {
                found.insert(name.clone(), target.clone());
            }
        }
        Ok(found)
    };
    let drop_refs = |repo: &str, names: &Vec<String>| {
        assert_eq!(repo, "repo");
        refs.borrow_mut().retain(|name, _| !names.contains(name));
        Ok(())
    };
    prepare_with_runner(options(), expected, runner, &read, &drop_refs)
}

#[test]
fn checked_execute_fetches_only_the_base_and_affected_stack_refs() {
    let expected = plan_from(&history(), &[]);
    let local: Refs = Rc::new(RefCell::new(refs(&[
        ("remotes/origin/main", BASE),
        ("remotes/origin/fs-base/draft/1", FIRST),
        ("remotes/origin/unrelated", BASE),
    ])));
    let mut runner = Recorded::new(World {
        remote: refs(&[
            ("heads/main", FIRST),
            ("heads/fs-head/draft/1", SECOND),
            ("heads/unrelated", SECOND),
            ("tags/unrelated", SECOND),
        ]),
        local: local.clone(),
        commits: history(),
        calls: vec![],
    });
    let fresh = prepared(&mut runner, Some(&expected)).unwrap();
    let error = execute_checked(fresh, &expected).err().unwrap();
    assert!(
        error.contains("publish plan changed after fetch"),
        "{error}"
    );
    assert_eq!(
        *local.borrow(),
        refs(&[
            ("remotes/origin/main", FIRST),
            ("remotes/origin/fs-head/draft/1", SECOND),
            ("remotes/origin/unrelated", BASE),
        ])
    );
    assert_eq!(
        runner.runner().calls[0][5..],
        [
            "refs/heads/fs-base/draft/1",
            "refs/heads/fs-base/draft/2",
            "refs/heads/fs-head/draft/1",
            "refs/heads/fs-head/draft/2",
            "refs/heads/main",
            "refs/heads/fs-head/draft/*",
        ]
    );

    let unchanged = prepared(
        &mut Recorded::new(World {
            remote: refs(&[("heads/main", BASE)]),
            local: Rc::new(RefCell::new(BTreeMap::new())),
            commits: history(),
            calls: vec![],
        }),
        Some(&expected),
    )
    .unwrap();
    assert!(execute_checked(unchanged, &expected).is_ok());
}

#[test]
fn a_first_plan_says_what_else_is_fetched() {
    let local: Refs = Rc::new(RefCell::new(BTreeMap::new()));
    let mut runner = Recorded::new(World {
        remote: refs(&[("heads/main", BASE), ("heads/fs-head/draft/4", SECOND)]),
        local: local.clone(),
        commits: history(),
        calls: vec![],
    });
    let plan = prepared(&mut runner, None).unwrap();
    assert_eq!(branches(&plan.commits), ["draft/5", "draft/6"]);
    let programs: Vec<&str> = runner
        .runner()
        .calls
        .iter()
        .map(|args| args[0].as_str())
        .collect();
    assert_eq!(
        programs,
        [
            "ls-remote",
            "fetch",
            "remote",
            "log",
            "for-each-ref",
            "ls-remote",
            "fetch",
            "remote",
            "log",
            "for-each-ref",
        ]
    );
    assert_eq!(runner.runner().calls[0][5..], ["refs/heads/main"]);
    assert_eq!(runner.runner().calls[5].len(), 11);

    let failing = prepare_with_runner(
        options(),
        None,
        &mut runner,
        &|_: &str, _: &Vec<String>, _: &Vec<String>| Err("no repository".into()),
        &|_: &str, _: &Vec<String>| Ok(()),
    );
    assert_eq!(failing.err(), Some("no repository".into()));
    assert_eq!(runner.runner().calls.len(), 11);
}

#[test]
fn stacks_are_linear() {
    let mut merge = raw(FIRST, BASE, "merge");
    merge.parents.push(id(8));
    assert_eq!(
        commit_record(&merge).unwrap_err(),
        "commit 000000000000 has 2 parents; forkstack requires a linear stack"
    );
    let apart = vec![
        commit_record(&raw(FIRST, BASE, "one")).unwrap(),
        commit_record(&raw(SECOND, BASE, "two")).unwrap(),
    ];
    assert_eq!(
        validate_linear_records(&apart).unwrap_err(),
        "forkstack requires a linear stack"
    );
    assert!(read_commits(&vec![]).unwrap().is_empty());
}

#[test]
fn messages_are_read_whatever_their_bytes() {
    let mut odd = raw(FIRST, BASE, "one");
    odd.message = vec![b' ', b'a', 0xff, b'b', b'\n'];
    let record = commit_record(&odd).unwrap();
    assert_eq!(record.message, "a\u{fffd}b");
    assert_eq!(record.subject, "one");
}

#[test]
fn claimed_identities_are_valid_and_differ() {
    let twice = vec![
        raw(FIRST, BASE, "one\n\nfs-branch: a/1"),
        raw(SECOND, FIRST, "two\n\nfs-branch: a/1"),
    ];
    assert_eq!(
        assign_branches(records(&twice), &None, &vec![]).unwrap_err(),
        "duplicate fs-branch: a/1"
    );
    let invalid = vec![raw(FIRST, BASE, "one\n\nfs-branch: a..1")];
    assert_eq!(
        assign_branches(records(&invalid), &None, &vec![]).unwrap_err(),
        "invalid fs-branch: a..1"
    );
    assert_eq!(
        assign_branches(records(&history()), &Some("-x".into()), &vec![]).unwrap_err(),
        "invalid identity prefix: -x"
    );
    let both = vec![raw(FIRST, BASE, "one\n\nfs-branch: a/1\nfs-branch: a/2")];
    assert_eq!(
        assign_branches(records(&both), &None, &vec![]).unwrap_err(),
        "multiple fs-branch trailers in one commit"
    );
}

#[test]
fn branches_of_the_remote_are_used_again_by_position() {
    let known = vec!["draft/1".into(), "draft/7".into()];
    let steps = assign_branches(records(&history()), &draft(), &known).unwrap();
    assert_eq!(branches(&steps), ["draft/1", "draft/8"]);
    assert_eq!(highest_number(&known, "draft"), 7);
    assert_eq!(highest_number(&known, "other"), 0);
    assert!(needs_remote_identities(&records(&history()), &draft()));
    assert!(!needs_remote_identities(&records(&history()), &None));
    assert_eq!(
        remote_identity_root("origin", "draft"),
        "refs/remotes/origin/fs-head/draft/"
    );
}

#[test]
fn numbers_are_given_while_there_are_any() {
    let history = records(&history());
    let few = vec!["draft/18446744073709551612".to_owned()];
    assert!(can_number(&history, &draft(), &few));
    let steps = assign_branches(history, &draft(), &few).unwrap();
    assert!(steps.iter().all(|step| valid_branch_name(&step.branch)));
    let history = records(&self::history());
    let none = vec!["draft/18446744073709551615".to_owned()];
    assert!(!can_number(&history, &draft(), &none));
    assert!(can_number(&history, &None, &none));
    assert!(can_number(&history, &Some("other".into()), &none));
    let last = vec!["draft/18446744073709551613".to_owned()];
    assert!(!can_number(&history, &draft(), &last));
    let by_place = vec![
        "draft/1".to_owned(),
        "draft/2".to_owned(),
        "draft/18446744073709551614".to_owned(),
    ];
    assert!(can_number(&history, &draft(), &by_place));
    let steps = assign_branches(history, &draft(), &by_place).unwrap();
    assert_eq!(branches(&steps), ["draft/1", "draft/2"]);
}

#[test]
fn no_number_is_needed_where_every_commit_has_its_identity() {
    let tagged = [
        raw(FIRST, BASE, "one\n\nfs-branch: draft/18446744073709551615"),
        raw(SECOND, FIRST, "two\n\nfs-branch: draft/1"),
    ];
    let mut runner = counting(&tagged, "");
    let plan = plan_with_runner(options(), &mut runner).unwrap();
    assert_eq!(
        branches(&plan.commits),
        ["draft/18446744073709551615", "draft/1"]
    );
    assert!(plan.commits.iter().all(|step| !step.identity_added));
    assert_eq!(runner.runner().calls.len(), 2);
}

#[test]
fn a_plan_names_its_fork_and_base() {
    assert_eq!(
        fork_of("origin", &Some("git@github.com:owner/repo.git".into())),
        Ok("owner/repo".into())
    );
    assert_eq!(
        fork_of("origin", &Some("nowhere".into())),
        Err("could not read owner/name from the \"origin\" remote URL".into())
    );
    assert_eq!(
        fork_of("origin", &None),
        Err("remote \"origin\" has a non-UTF-8 URL".into())
    );
    assert_eq!(base_reference(&options()), "refs/remotes/origin/main");
    assert_eq!(
        plan(options(), "example/repo".into(), vec![], &vec![]).unwrap_err(),
        "no commits in origin/main..HEAD"
    );
    let mut plan = plan_from(&history(), &[]);
    plan.updates.clear();
    refresh_updates(&mut plan);
    assert!(plan == plan_from(&history(), &[]));
}

#[test]
fn a_rewrite_keeps_what_has_its_identity_and_its_parent() {
    let tagged = vec![
        raw(FIRST, BASE, "one\n\nfs-branch: a/1"),
        raw(SECOND, FIRST, "two"),
    ];
    let plan = plan_from(&tagged, &[]);
    assert_eq!(branches(&plan.commits), ["a/1", "draft/1"]);
    let rewriting = rewrite_with_identities(plan);
    let step = rewriting.step().unwrap();
    assert_eq!(step.text, None);
    let plan = rewritten(plan_from(&tagged, &[]), 10);
    assert_eq!(plan.commits[0].rev, id(FIRST));
    assert_eq!(plan.commits[1].rev, id(10));
    assert_eq!(plan.commits[1].parent, id(FIRST));
    assert_eq!(plan.commits[1].message, "two\n\nfs-branch: draft/1\n");
    assert_eq!(plan.updates[3].rev, id(10));
}

#[test]
fn branches_move_to_the_rewritten_commits() {
    let mut rewriting = rewrite_with_identities(plan_from(&history(), &[]));
    for n in [10, 11] {
        let step = rewriting.step().unwrap();
        assert!(step.text.is_some());
        rewriting.finish(step, id(n));
    }
    assert!(rewriting.is_done());
    let heads = vec![
        (Some("refs/heads/main".to_owned()), Some(id(SECOND))),
        (Some("refs/heads/old".to_owned()), Some(id(BASE))),
        (None, Some(id(FIRST))),
        (Some("refs/heads/symbolic".to_owned()), None),
    ];
    let attached = rewriting.ref_moves(&heads, &id(SECOND), false).unwrap();
    assert_eq!(attached.len(), 1);
    assert_eq!(attached[0].name, "refs/heads/main");
    assert_eq!(attached[0].before, id(SECOND));
    assert_eq!(attached[0].after, id(11));
    let detached = rewriting.ref_moves(&heads, &id(SECOND), true).unwrap();
    assert_eq!(detached[1].name, "HEAD");
    assert_eq!(detached[1].after, id(11));
    assert_eq!(check_ref("HEAD", "a", &Some("a".into())), Ok(()));
    assert_eq!(
        check_ref("HEAD", "a", &Some("b".into())),
        Err("reference HEAD changed while rewriting commits".into())
    );
    assert_eq!(
        check_ref("HEAD", "a", &None),
        Err("reference HEAD disappeared".into())
    );
}

#[test]
fn a_plan_is_told_before_it_is_carried_out() {
    let mut plan = plan_from(&history(), &[]);
    plan.commits[1].identity_added = false;
    let said = "fork:   example/repo
stack:  origin/main..HEAD  (2 commits)

  000000000000  draft/1 (fs-head/draft/1) <- base fs-base/draft/1  (new identity)
                first change
  000000000000  draft/2 (fs-head/draft/2) <- base fs-base/draft/2
                second change
";
    assert_eq!(print_summary(&plan), said);
    assert_eq!(
        print_plan(&plan),
        format!(
            "{said}
Dry run. The execute pass would:

  add fs-branch: draft/1 to 000000000000
  create/update local fs-head/draft/1 tracking origin/fs-head/draft/1
  atomically update fs-base/draft/1 and fs-head/draft/1
  create/update local fs-head/draft/2 tracking origin/fs-head/draft/2
  atomically update fs-base/draft/2 and fs-head/draft/2

Re-run with --execute to do it.
"
        )
    );
}

#[test]
fn the_arguments_of_the_command_make_the_options() {
    let args = SubmitArgs {
        repo: "here".into(),
        remote: "fork".into(),
        base: "trunk".into(),
        prefix: draft(),
        no_draft: true,
        execute: false,
    };
    let options = args.options();
    assert_eq!(
        options,
        SubmitOptions {
            repo: "here".into(),
            remote: "fork".into(),
            base: "trunk".into(),
            prefix: draft(),
            draft: false,
        }
    );
    assert_eq!(fetching(&options), "fetching fork");
}

#[test]
fn stages_of_a_publication_follow_one_another() {
    let (state, output) = execute(plan_from(&history(), &[]));
    assert_eq!(state.stage, Stage::Discovery);
    assert!(matches!(
        output.action,
        PublishAction::Discover(heads) if heads == ["fs-head/draft/1", "fs-head/draft/2"]
    ));
}

/// Answers what planning asks of Git, and keeps what was asked.
struct CountingRunner {
    log: String,
    refs: String,
    calls: Vec<Vec<String>>,
}

impl CommandRunner for CountingRunner {
    fn run(
        &mut self,
        program: &str,
        args: &Vec<String>,
        _repo: &str,
        _input: &Option<String>,
        _env: &Vec<(String, String)>,
    ) -> Result<String, String> {
        assert_eq!(program, "git");
        self.calls.push(args.clone());
        match args[0].as_str() {
            "remote" => Ok("git@github.com:example/repo.git".into()),
            "log" => Ok(self.log.clone()),
            "for-each-ref" => Ok(self.refs.clone()),
            other => panic!("unexpected git invocation {other:?}"),
        }
    }
}

/// What Git logs of commits.
fn log_of(commits: &[RawCommit]) -> String {
    commits
        .iter()
        .map(|commit| {
            format!(
                "{}\0{}\0{}\0{}\0{}\0",
                commit.id,
                commit.parents.join(" "),
                commit.summary.clone().unwrap_or_default(),
                commit.body.clone().unwrap_or_default(),
                String::from_utf8_lossy(&commit.message),
            )
        })
        .collect()
}

fn counting(commits: &[RawCommit], refs: &str) -> Recorded<CountingRunner> {
    Recorded::new(CountingRunner {
        log: log_of(commits),
        refs: refs.into(),
        calls: vec![],
    })
}

#[test]
fn tagged_stack_planning_uses_two_git_processes() {
    let tagged = committed(&rewritten(plan_from(&history(), &[]), 10).commits);
    let mut runner = counting(&tagged, "");
    let plan = plan_with_runner(options(), &mut runner).unwrap();
    assert!(plan.commits.iter().all(|step| !step.identity_added));
    assert_eq!(plan.fork, "example/repo");
    assert_eq!(branches(&plan.commits), ["draft/1", "draft/2"]);
    let calls = &runner.runner().calls;
    assert_eq!(calls.len(), 2, "unexpected Git commands: {calls:?}");
    assert_eq!(calls[0][..2], ["remote", "get-url"]);
    assert_eq!(calls[1][0], "log");
    assert_eq!(calls[1].last().unwrap(), "refs/remotes/origin/main..HEAD");
}

#[test]
fn planning_process_count_is_independent_of_small_stack_size() {
    let mut commits = history();
    for index in 0..10 {
        commits.push(raw(
            SECOND + 1 + index,
            SECOND + index,
            &format!("extra change {index}"),
        ));
    }
    let mut runner = counting(&commits, "refs/remotes/origin/fs-head/draft/20\nrefs/other");
    let plan = plan_with_runner(options(), &mut runner).unwrap();
    assert_eq!(plan.commits.len(), 12);
    assert_eq!(plan.commits[0].branch, "draft/21");
    let calls = &runner.runner().calls;
    assert_eq!(calls.len(), 3, "unexpected Git commands: {calls:?}");
    assert_eq!(calls[0][..2], ["remote", "get-url"]);
    assert_eq!(calls[1][0], "log");
    assert_eq!(calls[2][0], "for-each-ref");
    assert_eq!(calls[2][2], "refs/remotes/origin/fs-head/draft/");
}

#[test]
fn planning_tells_what_is_wrong_with_what_git_says() {
    let mut runner = counting(&[], "");
    assert_eq!(
        plan_with_runner(options(), &mut runner).unwrap_err(),
        "no commits in origin/main..HEAD"
    );
    let mut runner = Recorded::new(CountingRunner {
        log: "a\0b".into(),
        refs: String::new(),
        calls: vec![],
    });
    assert_eq!(
        plan_with_runner(options(), &mut runner).unwrap_err(),
        "could not parse git log output"
    );
    let apart = [raw(FIRST, BASE, "first"), raw(SECOND, BASE, "second")];
    assert_eq!(
        plan_with_runner(options(), &mut counting(&apart, "")).unwrap_err(),
        "forkstack requires a linear stack"
    );
    let merge = "0123456789abcdef\0p q\0s\0b\0m\0";
    assert_eq!(
        parse_stack_log(merge).unwrap_err(),
        "commit 0123456789ab has 2 parents; forkstack requires a linear stack"
    );
    let used_up = "refs/remotes/origin/fs-head/draft/18446744073709551615";
    assert_eq!(
        plan_with_runner(options(), &mut counting(&history(), used_up)).unwrap_err(),
        "the numbers of identities are used up"
    );
    let record = &parse_stack_log("r\0p\0 s \0\nb\n\0s\n\nb\n\0").unwrap()[0];
    assert_eq!((record.rev.as_str(), record.parent.as_str()), ("r", "p"));
    assert_eq!((record.subject.as_str(), record.body.as_str()), ("s", "b"));
    assert_eq!(record.message, "s\n\nb");
}

#[test]
fn plans_are_lines() {
    let apart = vec![raw(FIRST, BASE, "first")];
    let mut records = records(&apart);
    records.push(read_commits(&vec![raw(SECOND, BASE, "second")]).unwrap().remove(0));
    let Err(error) = plan(options(), "example/repo".into(), records, &vec![]) else {
        panic!("a plan for commits that form no line");
    };
    assert_eq!(error, "forkstack requires a linear stack");
}

/// Answers what linking asks of GitHub, and keeps what was asked.
#[derive(Default)]
struct LinkRunner(Vec<String>);

impl CommandRunner for LinkRunner {
    fn run(
        &mut self,
        program: &str,
        args: &Vec<String>,
        _repo: &str,
        _input: &Option<String>,
        env: &Vec<(String, String)>,
    ) -> Result<String, String> {
        assert_eq!(program, "gh");
        assert_eq!(env[..], [("GH_REPO".to_owned(), "example/repo".to_owned())]);
        self.0.push(args.join(" "));
        Ok(if args[0] == "api" {
            r#"[{"number":4,"pull_requests":[7,90]}]"#.into()
        } else {
            String::new()
        })
    }
}

#[test]
fn published_stacks_are_linked() {
    let pr = |number: u64, base: &str| OpenPullRequest {
        id: number.to_string(),
        number,
        base_ref_name: base.into(),
        title: String::new(),
        body: String::new(),
        url: String::new(),
    };
    let plan = rewritten(plan_from(&history(), &[]), 10);
    let (mut state, _) = execute(plan);
    let mut wanted = None;
    let mut by_head = Dict::new();
    by_head.insert("fs-head/draft/1".to_owned(), pr(7, "fs-base/draft/1"));
    for event in [
        PublishEvent::Discovered(Discovery {
            repository_id: "R".into(),
            by_head,
        }),
        PublishEvent::Rewritten(rewritten(plan_from(&history(), &[]), 10)),
        PublishEvent::HeadsSynced,
        PublishEvent::Pushed,
        PublishEvent::Created(vec![pr(8, "fs-base/draft/2")]),
        PublishEvent::Edited,
    ] {
        let Ok((next, output)) = execute_with(state, event) else {
            panic!("the publication failed");
        };
        state = next;
        if let PublishAction::Link(link) = output.action {
            wanted = Some(link);
        }
    }
    assert_eq!(state.stage, Stage::Linking);
    let link = wanted.unwrap();
    assert_eq!(link.github_repo, "example/repo");
    assert_eq!((link.remote.as_str(), link.base.as_str()), ("origin", "main"));
    assert_eq!(link.branches, ["fs-head/draft/1", "fs-head/draft/2"]);
    assert_eq!(link.existing, [7]);
    assert_eq!(link.desired, [7, 8]);
    let mut runner = Recorded::new(LinkRunner::default());
    link_stack(&mut runner, &link).unwrap();
    assert_eq!(
        runner.runner().0,
        [
            "api repos/example/repo/stacks?pull_request=7",
            "stack unstack 4",
            "stack link --remote origin --base main fs-head/draft/1 fs-head/draft/2",
        ]
    );
    let Ok((state, output)) = execute_with(state, PublishEvent::Linked) else {
        panic!("the publication failed");
    };
    assert!(matches!(output.action, PublishAction::Finish));
    assert_eq!(state.stage, Stage::Finished);
    let links = published_links(&state);
    assert_eq!(links.len(), 2);
    assert_eq!(links[0].head_ref_name, "fs-head/draft/1");
    assert_eq!(links[0].number, 7);
    assert_eq!(links[1].head_ref_name, "fs-head/draft/2");
    assert_eq!(links[1].number, 8);
}

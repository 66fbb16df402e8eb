use forkstack::bytes::{cut, find_before};
use forkstack::commands::ui::{run, UiArgs};
use forkstack::dict::Dict;
use forkstack::integrations::github::{
    create_pr, edit_pr, load_pr_links, pull_request_number, pull_request_url, PullRequestLink,
};
use forkstack::integrations::runner::{CommandRunner, Recorded};
use forkstack::number::{parse, to_decimal, to_signed_decimal};
use forkstack::paths::{below, name_below, path_steps, short_name};
use forkstack::split::{join, lines, split, split_inclusive, words};
use forkstack::stack::submit::{RefUpdate, SubmitOptions, SubmitPlan};
use forkstack::text::{clip, ends_with, less, same, starts_with, trimmed, trimmed_end};
use forkstack::ui::event::{
    begin, begin_request, operation_worker, worker, Operation, OperationRequest, OperationResult,
    Request, Response, Work, WorkAction, WorkEvent, WorkOutput, WorkerOutput,
};
use forkstack::ui::load::{conflict_files, load_graph_for, Snapshot, WalkedCommit};
use forkstack::ui::model::{Commit, Graph};

#[test]
fn numbers_are_written_and_read() {
    assert_eq!(to_decimal(0), "0");
    assert_eq!(to_decimal(u64::MAX), u64::MAX.to_string());
    assert_eq!(to_signed_decimal(-5), "-5");
    assert_eq!(to_signed_decimal(i64::MIN), i64::MIN.to_string());
    for text in ["0", "7", "+7", "007", "", "+", "-1", "a", "1a", " 1"] {
        assert_eq!(parse(text), text.parse::<u64>().ok(), "{text}");
    }
    assert_eq!(parse("18446744073709551615"), Some(u64::MAX));
    assert_eq!(parse("18446744073709551616"), None);
}

#[test]
fn texts_are_cut_and_trimmed_as_the_standard_library_does() {
    for text in ["", "a", " a b ", "a\n", "a\r\nb", "\u{2003}x\u{3000}", "\n\n", "a\rb"] {
        assert_eq!(trimmed(text), text.trim());
        assert_eq!(trimmed_end(text), text.trim_end());
        assert_eq!(lines(text), text.lines().collect::<Vec<_>>());
        assert_eq!(
            words(text),
            text.split_whitespace().collect::<Vec<_>>()
        );
        assert_eq!(split(text, 'a'), text.split('a').collect::<Vec<_>>());
        assert_eq!(
            split_inclusive(text),
            text.split_inclusive('\n').collect::<Vec<_>>()
        );
        for other in ["", "a", " ", "a\n", "b"] {
            assert_eq!(starts_with(text, other), text.starts_with(other));
            assert_eq!(ends_with(text, other), text.ends_with(other));
            assert_eq!(less(text, other), text < other);
            assert_eq!(same(text, other), text == other);
            assert_eq!(
                find_before(text, other).as_deref(),
                text.find(other).map(|end| &text[..end])
            );
        }
    }
    assert_eq!(clip("a\u{20ac}b", 4), "a\u{20ac}");
    assert_eq!(clip("ab", 4), "ab");
    assert_eq!(cut("a\u{20ac}b", 1, 4), "\u{20ac}");
    assert_eq!(join(&vec!["a".into(), "b".into()], ", "), "a, b");
}

#[test]
fn paths_are_taken_step_by_step() {
    assert_eq!(path_steps("/a//b/./c/"), ["a", "b", "c"]);
    assert_eq!(path_steps("./a/."), [".", "a"]);
    assert_eq!(below("/a/b/c", "/a").as_deref(), Some("b/c"));
    assert_eq!(below("/ab", "/a"), None);
    assert_eq!(below("a", "/a"), None);
    assert_eq!(below("/a", "/a").as_deref(), Some(""));
    assert_eq!(below("/r/a//b/./", "/r").as_deref(), Some("a//b"));
    assert_eq!(below("/r/./a/./b", "/r/").as_deref(), Some("a/./b"));
    assert_eq!(below("./a//b", "").as_deref(), Some("./a//b"));
    assert_eq!(below("./a", ".").as_deref(), Some("a"));
    assert_eq!(below("//a/", "").as_deref(), Some("//a"));
    assert_eq!(below("//", "").as_deref(), Some("/"));
    assert_eq!(short_name("/a/b"), "b");
    assert_eq!(short_name("/"), "/");
    assert_eq!(short_name("/a/.."), "/a/..");
    assert_eq!(name_below("/a/b", "/a"), "b");
    assert_eq!(name_below("/r/a//b", "/r"), "a//b");
    assert_eq!(name_below("/a", "/a"), "a");
    assert_eq!(name_below("/x/y", "/a"), "/x/y");
}

#[test]
fn a_dictionary_keeps_one_value_for_each_key() {
    let mut dict: Dict<u64> = Dict::new();
    dict.insert("b".into(), 1);
    dict.insert("a".into(), 2);
    dict.insert("b".into(), 3);
    assert_eq!(dict.len(), 2);
    assert_eq!(dict.get("b"), Some(&3));
    *dict.get_mut("a").unwrap() = 4;
    assert_eq!(dict.get("a"), Some(&4));
    assert_eq!(dict.remove("b"), Some(3));
    assert_eq!(dict.remove("b"), None);
    assert!(dict.contains_key("a"));
    dict.keep(&vec!["c".into()]);
    assert_eq!(dict.len(), 0);
}

#[derive(Default)]
struct Runner {
    calls: Vec<Vec<String>>,
}

impl CommandRunner for Runner {
    fn run(
        &mut self,
        program: &str,
        args: &Vec<String>,
        repo: &str,
        input: &Option<String>,
        env: &Vec<(String, String)>,
    ) -> Result<String, String> {
        assert_eq!(program, "gh");
        assert_eq!(repo, "repo");
        assert!(input.is_none() && env.is_empty());
        self.calls.push(args.clone());
        Ok("https://example.invalid/1".into())
    }
}

#[test]
fn pull_requests_are_opened_and_changed_by_the_command() {
    let mut runner = Recorded::new(Runner::default());
    for draft in [false, true] {
        assert_eq!(
            create_pr(&mut runner, "repo", "o/r", "b", "h", "t", "d", draft).unwrap(),
            "https://example.invalid/1"
        );
    }
    edit_pr(&mut runner, "repo", "o/r", 12, "t", "d").unwrap();
    let ready = [
        "pr", "create", "--repo", "o/r", "--base", "b", "--head", "h", "--title", "t", "--body",
        "d",
    ];
    assert_eq!(runner.runner().calls[0], ready);
    assert_eq!(runner.runner().calls[1][..12], ready);
    assert_eq!(runner.runner().calls[1][12], "--draft");
    assert_eq!(
        runner.runner().calls[2],
        ["pr", "edit", "12", "--repo", "o/r", "--title", "t", "--body", "d"]
    );
}

fn options() -> SubmitOptions {
    SubmitOptions {
        repo: "repo".into(),
        remote: "fork".into(),
        base: "trunk".into(),
        prefix: None,
        draft: false,
    }
}

fn begun(operation: Operation) -> (Work, WorkAction) {
    begin(OperationRequest {
        options: options(),
        id: 4,
        operation,
    })
    .unwrap()
}

fn done(output: WorkOutput) -> OperationResult {
    match output {
        WorkOutput::Done(result) => {
            assert_eq!(result.repo, "repo");
            assert_eq!(result.id, 4);
            result
        }
        WorkOutput::Next(..) => panic!("not done"),
    }
}

fn next(output: WorkOutput) -> (Work, WorkAction) {
    match output {
        WorkOutput::Next(work, action) => (work, action),
        WorkOutput::Done(_) => panic!("done"),
    }
}

fn loads_graph(action: &WorkAction) -> bool {
    matches!(action, WorkAction::LoadGraph { remote, base } if remote == "fork" && base == "trunk")
}

fn graph() -> Graph {
    let mut commits = Dict::new();
    commits.insert(
        "a".into(),
        Commit {
            id: "a".into(),
            remote_refs: vec!["fork/topic".into(), "origin/other".into()],
            ..Commit::default()
        },
    );
    Graph {
        commits,
        order: vec!["a".into()],
        head: "a".into(),
        branch: None,
    }
}

fn plan(rev: &str) -> SubmitPlan {
    SubmitPlan {
        options: SubmitOptions {
            remote: "upstream".into(),
            base: "main".into(),
            ..options()
        },
        fork: "o/r".into(),
        base_ref: "upstream/main".into(),
        commits: Vec::new(),
        updates: vec![RefUpdate {
            branch: "fs-head/x/1".into(),
            rev: rev.into(),
        }],
    }
}

fn links() -> Vec<PullRequestLink> {
    vec![PullRequestLink {
        number: 3,
        head_ref_name: "topic".into(),
        url: "https://example.invalid/3".into(),
    }]
}

#[test]
fn a_load_only_reads_the_graph() {
    let (work, action) = begun(Operation::Load);
    assert!(loads_graph(&action));
    let result = done(operation_worker(work, WorkEvent::Graph(Err("no".into()))));
    assert_eq!(result.graph.err().as_deref(), Some("no"));
    assert!(result.pr_links.is_none());
    assert!(result.operation_error.is_none());
}

#[test]
fn a_refresh_reads_the_links_of_the_shown_branches() {
    let (work, action) = begun(Operation::Refresh);
    assert!(loads_graph(&action));
    let (work, action) = next(operation_worker(work, WorkEvent::Graph(Ok(graph()))));
    assert!(matches!(action, WorkAction::LoadLinks(heads) if heads == ["topic"]));
    let result = done(operation_worker(work, WorkEvent::Links(Ok(links()))));
    let found = result.pr_links.unwrap().unwrap();
    assert_eq!(found.get("fork/topic").unwrap().number, 3);

    let (work, _) = begun(Operation::Refresh);
    let (work, _) = next(operation_worker(work, WorkEvent::Graph(Ok(graph()))));
    let result = done(operation_worker(work, WorkEvent::Links(Err("off".into()))));
    assert_eq!(
        result.pr_links.unwrap().err().as_deref(),
        Some("PR links unavailable: off")
    );
    let (work, _) = begun(Operation::Refresh);
    let result = done(operation_worker(work, WorkEvent::Graph(Err("no".into()))));
    assert!(result.pr_links.is_none());
}

#[test]
fn what_changes_the_repository_is_followed_by_a_load() {
    let (work, action) = begun(Operation::Checkout {
        revision: "a".into(),
        branch: Some("b".into()),
    });
    assert!(matches!(
        action,
        WorkAction::Checkout { revision, branch } if revision == "a" && branch.as_deref() == Some("b")
    ));
    let (work, action) = next(operation_worker(
        work,
        WorkEvent::Acted(Err("dirty".into())),
    ));
    assert!(loads_graph(&action));
    let result = done(operation_worker(work, WorkEvent::Graph(Ok(graph()))));
    assert_eq!(result.operation_error.as_deref(), Some("dirty"));
    assert_eq!(result.graph.unwrap().order, ["a"]);
}

#[test]
fn a_publication_is_previewed_on_the_graph() {
    let (work, action) = begun(Operation::PublishPreview(options()));
    assert!(matches!(action, WorkAction::Plan(_)));
    let (work, action) = next(operation_worker(work, WorkEvent::Planned(Ok(plan("a")))));
    assert!(loads_graph(&action));
    let result = done(operation_worker(work, WorkEvent::Graph(Ok(graph()))));
    assert!(result.publish_plan.unwrap() == plan("a"));
    assert!(result.preview.unwrap().commits.get("a").unwrap().preview);

    let (work, _) = begun(Operation::PublishPreview(options()));
    let (work, _) = next(operation_worker(work, WorkEvent::Planned(Ok(plan("z")))));
    let result = done(operation_worker(work, WorkEvent::Graph(Ok(graph()))));
    assert_eq!(
        result.operation_error.as_deref(),
        Some("publish target z is not visible in the graph")
    );
    assert!(result.preview.is_none() && result.publish_plan.is_none());
    assert!(result.graph.is_ok());

    let (work, _) = begun(Operation::PublishPreview(options()));
    let (work, _) = next(operation_worker(work, WorkEvent::Planned(Ok(plan("a")))));
    let result = done(operation_worker(work, WorkEvent::Graph(Err("no".into()))));
    assert_eq!(result.operation_error.as_deref(), Some("no"));
    assert_eq!(result.graph.err().as_deref(), Some("no"));

    let (work, _) = begun(Operation::PublishPreview(options()));
    let (work, action) = next(operation_worker(
        work,
        WorkEvent::Planned(Err("none".into())),
    ));
    assert!(loads_graph(&action));
    let result = done(operation_worker(work, WorkEvent::Graph(Ok(graph()))));
    assert_eq!(result.operation_error.as_deref(), Some("none"));
}

#[test]
fn a_publication_gives_the_links_of_its_remote() {
    let (work, action) = begun(Operation::PublishExecute(plan("a")));
    assert!(matches!(action, WorkAction::Publish(_)));
    let (work, action) = next(operation_worker(work, WorkEvent::Published(Ok(links()))));
    assert!(loads_graph(&action));
    let result = done(operation_worker(work, WorkEvent::Graph(Ok(graph()))));
    let found = result.pr_links.unwrap().unwrap();
    assert!(found.contains_key("upstream/topic"));

    let (work, _) = begun(Operation::PublishExecute(plan("a")));
    let (work, _) = next(operation_worker(
        work,
        WorkEvent::Published(Err("stale".into())),
    ));
    let result = done(operation_worker(work, WorkEvent::Graph(Ok(graph()))));
    assert_eq!(result.operation_error.as_deref(), Some("stale"));
    assert!(result.pr_links.is_none());
}

#[test]
fn a_stop_ends_the_work() {
    assert!(begin(OperationRequest {
        options: options(),
        id: 1,
        operation: Operation::Stop,
    })
    .is_none());
    assert!(begin_request(options(), Request::Stop).is_none());
}

fn answered(output: WorkerOutput) -> Response {
    match output {
        WorkerOutput::Done(response) => response,
        WorkerOutput::Next(..) => panic!("not done"),
    }
}

#[test]
fn requests_are_answered() {
    let (work, action) = begin_request(options(), Request::Load).unwrap();
    assert!(loads_graph(&action));
    let response = answered(worker(work, WorkEvent::Graph(Ok(graph()))));
    assert!(response.graph.is_ok() && response.operation_error.is_none());
    let (_, action) = begin_request(options(), Request::Checkout("a".into())).unwrap();
    assert!(matches!(action, WorkAction::CheckoutBranch(revision) if revision == "a"));
    let (work, _) = begin_request(options(), Request::PublishPreview(options())).unwrap();
    match worker(work, WorkEvent::Planned(Ok(plan("a")))) {
        WorkerOutput::Next(_, WorkAction::LoadGraph { remote, base }) => {
            assert_eq!((remote.as_str(), base.as_str()), ("upstream", "main"));
        }
        _ => panic!("the graph is not read"),
    }
}

#[test]
fn the_arguments_of_the_view_make_its_options() {
    let options = run(UiArgs {
        repo: "here".into(),
        remote: "fork".into(),
        base: "trunk".into(),
        prefix: Some("x".into()),
        no_draft: false,
    });
    assert_eq!(options.repo, "here");
    assert_eq!(options.prefix.as_deref(), Some("x"));
    assert!(options.draft);
}

#[test]
fn a_graph_is_made_of_a_snapshot() {
    let a = "a".repeat(40);
    let b = "b".repeat(40);
    let graph = load_graph_for(&Snapshot {
        head: Some(b.clone()),
        head_name: Some("refs/heads/main".into()),
        markers: vec![("rebase".into(), a.clone())],
        files: vec!["f".into()],
        refs: vec![
            (b.clone(), "refs/heads/main".into()),
            (a.clone(), "refs/remotes/origin/main".into()),
        ],
        tags: vec![(a.clone(), "refs/tags/v1".into())],
        walked: vec![
            WalkedCommit {
                id: b.clone(),
                parents: vec![a.clone()],
                subject: "two".into(),
            },
            WalkedCommit {
                id: a.clone(),
                parents: vec![],
                subject: "one".into(),
            },
        ],
    });
    assert_eq!(graph.order, [b.clone(), a.clone()]);
    assert_eq!(graph.head, b);
    assert_eq!(graph.branch.as_deref(), Some("main"));
    let old = graph.commits.get(&a).unwrap();
    assert_eq!(old.remote_refs, ["origin/main"]);
    assert_eq!(old.tags, ["v1"]);
    assert!(old.conflict.is_some());
    let new = graph.commits.get(&b).unwrap();
    assert_eq!(new.local_refs, ["main"]);
    assert!(new.is_head);
}

#[test]
fn a_repository_without_commits_has_an_empty_graph() {
    let graph = load_graph_for(&Snapshot {
        head: None,
        head_name: None,
        markers: vec![],
        files: vec![],
        refs: vec![],
        tags: vec![],
        walked: vec![],
    });
    assert!(graph.order.is_empty());
    assert_eq!(graph.head, "");
    assert_eq!(graph.commits.len(), 0);
}

#[test]
fn files_in_conflict_are_named_once() {
    let paths = vec![b"b".to_vec(), b"a".to_vec(), b"b".to_vec()];
    assert_eq!(conflict_files(&paths), ["a", "b"]);
}

struct Answer(&'static str, Vec<Vec<String>>);

impl CommandRunner for Answer {
    fn run(
        &mut self,
        program: &str,
        args: &Vec<String>,
        repo: &str,
        _input: &Option<String>,
        _env: &Vec<(String, String)>,
    ) -> Result<String, String> {
        assert_eq!((program, repo), ("gh", "repo"));
        self.1.push(args.clone());
        Ok(self.0.into())
    }
}

#[test]
fn links_of_a_branch_are_listed() {
    let mut runner = Recorded::new(Answer("", vec![]));
    let links = load_pr_links(&mut runner, "repo", "me/fork", "fs-head/a/1", |text: &str| {
        assert_eq!(text, "[]");
        Ok(vec![PullRequestLink {
            number: 9,
            head_ref_name: "fs-head/a/1".into(),
            url: "https://example.invalid/9".into(),
        }])
    })
    .unwrap();
    assert_eq!(links.len(), 1);
    assert_eq!(links[0].url, "https://example.invalid/9");
    assert_eq!(
        runner.runner().1,
        [[
            "pr",
            "list",
            "--repo",
            "me/fork",
            "--head",
            "fs-head/a/1",
            "--state",
            "open",
            "--json",
            "number,headRefName,url",
        ]]
    );
    let mut runner = Recorded::new(Answer("{", vec![]));
    assert_eq!(
        load_pr_links(&mut runner, "repo", "me/fork", "b", |text: &str| Err(text.into())),
        Err("could not parse gh output: {".into())
    );
}

#[test]
fn addresses_tell_the_number() {
    let url = pull_request_url("me/fork", 120);
    assert_eq!(url, "https://github.com/me/fork/pull/120");
    assert_eq!(pull_request_number(&url), Some(120));
    assert_eq!(pull_request_number("https://github.com/me/fork/pull/"), None);
    assert_eq!(pull_request_number("17"), Some(17));
    assert_eq!(pull_request_number("pull/x"), None);
}

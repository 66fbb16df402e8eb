use forkstack::dict::Dict;
use forkstack::integrations::git::{fetch_remote_branches, local_ref_scope, push_atomic};
use forkstack::integrations::runner::{completed, finished, CommandRunner, Recorded};

#[derive(Default)]
struct Runner {
    calls: Vec<(Vec<String>, Option<String>)>,
}

impl CommandRunner for Runner {
    fn run(
        &mut self,
        program: &str,
        args: &Vec<String>,
        _repo: &str,
        input: &Option<String>,
        _env: &Vec<(String, String)>,
    ) -> Result<String, String> {
        assert_eq!(program, "git");
        self.calls.push((args.clone(), input.clone()));
        if args.first().is_some_and(|arg| arg == "ls-remote") {
            Ok(["aaaa\trefs/heads/fs-head/topic/1", "bbbb\trefs/heads/main"].join("\n"))
        } else {
            Ok(String::new())
        }
    }
}

fn fetch(
    runner: &mut Recorded<Runner>,
    local: Dict<String>,
    remote: &str,
    branches: &[&str],
    prefixes: &[&str],
) -> Vec<String> {
    let branches: Vec<String> = branches.iter().map(|name| (*name).into()).collect();
    let prefixes: Vec<String> = prefixes.iter().map(|name| (*name).into()).collect();
    fetch_remote_branches(runner, &Ok(local), ".", remote, &branches, &prefixes).unwrap()
}

#[test]
fn targeted_fetch_constructs_exact_refspecs_and_reports_only_missing_refs() {
    let mut runner = Recorded::new(Runner::default());
    let missing = fetch(
        &mut runner,
        Dict::new(),
        "upstream",
        &[
            "main",
            "fs-head/topic/1",
            "fs-base/topic/1",
            "fs-head/topic/1",
        ],
        &[],
    );

    let calls = &runner.runner().calls;
    assert_eq!(calls.len(), 2);
    assert_eq!(
        calls[0].0,
        [
            "ls-remote",
            "--refs",
            "--heads",
            "--end-of-options",
            "upstream",
            "refs/heads/fs-base/topic/1",
            "refs/heads/fs-head/topic/1",
            "refs/heads/main",
        ]
    );
    assert_eq!(
        calls[1].0,
        [
            "fetch",
            "--no-tags",
            "--no-write-fetch-head",
            "--end-of-options",
            "upstream",
            "+refs/heads/fs-head/topic/1:refs/remotes/upstream/fs-head/topic/1",
            "+refs/heads/main:refs/remotes/upstream/main",
        ]
    );
    assert_eq!(missing, ["refs/remotes/upstream/fs-base/topic/1"]);
}

#[test]
fn targeted_fetch_with_no_branches_runs_no_commands() {
    let mut runner = Recorded::new(Runner::default());
    let missing = fetch(&mut runner, Dict::new(), "origin", &[], &[]);
    assert!(runner.runner().calls.is_empty());
    assert!(missing.is_empty());
}

#[test]
fn targeted_fetch_expands_identity_prefixes_to_exact_refspecs() {
    let mut runner = Recorded::new(Runner::default());
    fetch(
        &mut runner,
        Dict::new(),
        "origin",
        &["main", "fs-head/topic/1"],
        &["fs-head/topic"],
    );

    let calls = &runner.runner().calls;
    assert_eq!(calls.len(), 2);
    assert_eq!(
        calls[0].0,
        [
            "ls-remote",
            "--refs",
            "--heads",
            "--end-of-options",
            "origin",
            "refs/heads/fs-head/topic/1",
            "refs/heads/main",
            "refs/heads/fs-head/topic/*",
        ]
    );
    assert_eq!(
        calls[1].0,
        [
            "fetch",
            "--no-tags",
            "--no-write-fetch-head",
            "--end-of-options",
            "origin",
            "+refs/heads/fs-head/topic/1:refs/remotes/origin/fs-head/topic/1",
            "+refs/heads/main:refs/remotes/origin/main",
        ]
    );
}

#[test]
fn unchanged_tracking_refs_run_ls_remote_without_fetch() {
    let mut runner = Recorded::new(Runner::default());
    let mut local = Dict::new();
    local.insert("refs/remotes/origin/fs-head/topic/1".into(), "aaaa".into());
    local.insert("refs/remotes/origin/main".into(), "bbbb".into());
    let missing = fetch(
        &mut runner,
        local,
        "origin",
        &["main", "fs-head/topic/1"],
        &[],
    );
    assert!(missing.is_empty());
    let calls = &runner.runner().calls;
    assert_eq!(calls.len(), 1);
    assert_eq!(calls[0].0[0], "ls-remote");
}

#[test]
fn local_refs_that_cannot_be_read_are_an_error() {
    let mut runner = Recorded::new(Runner::default());
    let r = fetch_remote_branches(
        &mut runner,
        &Err("broken".into()),
        ".",
        "origin",
        &vec!["main".into()],
        &vec![],
    );
    assert_eq!(r.unwrap_err(), "broken");
}

#[test]
fn the_local_scope_names_the_tracking_refs() {
    let (exact, prefixes) = local_ref_scope(
        "origin",
        &vec!["main".into(), "fs-head/a/1".into()],
        &vec!["fs-head/a".into()],
    );
    assert!(exact.contains(&"refs/remotes/origin/main".to_string()));
    assert!(exact.contains(&"refs/remotes/origin/fs-head/a/1".to_string()));
    assert_eq!(prefixes.len(), 1);
    assert!(prefixes[0].starts_with("refs/remotes/origin/fs-head/a/"));
}

#[test]
fn a_push_is_atomic_and_leased() {
    let mut runner = Recorded::new(Runner::default());
    push_atomic(
        &mut runner,
        ".",
        "origin",
        &vec![
            ("fs-base/a/1".into(), "aaaa".into()),
            ("fs-head/a/1".into(), "bbbb".into()),
        ],
    )
    .unwrap();
    assert_eq!(
        runner.runner().calls[0].0,
        [
            "push",
            "--atomic",
            "--force-with-lease",
            "origin",
            "aaaa:refs/heads/fs-base/a/1",
            "bbbb:refs/heads/fs-head/a/1",
        ]
    );
}

#[test]
fn a_run_gives_its_output_or_what_it_said_of_its_failure() {
    assert_eq!(finished(true, " out \n", "warning"), Ok("out".into()));
    assert_eq!(finished(false, "out", " bad \n"), Err("bad".into()));
    assert_eq!(finished(false, "out\n", "  \n"), Err("out".into()));
    assert_eq!(
        completed(true, &b"caf\xc3\xa9\n".to_vec(), &vec![]),
        Ok("caf\u{e9}".into())
    );
    assert_eq!(
        completed(true, &vec![b'a', 0xff, b'b'], &vec![]),
        Ok("a\u{fffd}b".into())
    );
}

use forkstack::commands::log::{run, LogArgs};
use forkstack::integrations::log::{
    asks_refresh, git_log_args, less_args, normalize_remotes, LogSpec,
};

#[test]
fn remote_specs_are_repeatable_comma_separated_and_default_origin() {
    assert_eq!(normalize_remotes(&vec![], false), ["origin"]);
    assert_eq!(
        normalize_remotes(&vec!["one,two".into(), "three".into()], false),
        ["one", "two", "three"]
    );
    assert!(normalize_remotes(&vec!["one".into()], true).is_empty());
}

#[test]
fn constructs_filtered_git_log_command() {
    let args = git_log_args(
        &LogSpec {
            remotes: vec!["origin".into(), "upstream".into()],
            tags: true,
            max_count: Some(20),
            git_args: vec!["--first-parent".into()],
        },
        false,
    );
    assert_eq!(&args[..4], ["log", "--graph", "--oneline", "--decorate"]);
    for expected in [
        "--branches",
        "HEAD",
        "--glob=refs/remotes/origin/*",
        "--glob=refs/remotes/upstream/*",
        "--tags",
        "--decorate-refs=refs/heads/*",
        "--decorate-refs=HEAD",
        "--decorate-refs=refs/remotes/origin/*",
        "--decorate-refs=refs/remotes/upstream/*",
        "--decorate-refs=refs/tags/*",
        "-20",
        "--first-parent",
    ] {
        assert!(args.iter().any(|arg| arg == expected), "missing {expected}");
    }
    assert_eq!(
        git_log_args(
            &LogSpec {
                remotes: vec![],
                tags: false,
                max_count: None,
                git_args: vec![]
            },
            true
        )[1],
        "--color=always"
    );
}

#[test]
fn negative_limits_are_written_as_they_are() {
    let args = git_log_args(
        &LogSpec {
            remotes: vec![],
            tags: false,
            max_count: Some(-3),
            git_args: vec![],
        },
        false,
    );
    assert!(args.iter().any(|arg| arg == "--3"));
}

#[test]
fn the_arguments_of_the_command_make_the_log() {
    let (repo, spec) = run(LogArgs {
        repo: "here".into(),
        remote: vec!["a,b".into()],
        no_remotes: false,
        tags: true,
        max_count: None,
        git_args: vec!["--all".into()],
    });
    assert_eq!(repo, "here");
    assert_eq!(spec.remotes, ["a", "b"]);
    assert!(spec.tags);
    assert_eq!(spec.git_args, ["--all"]);
}

#[test]
fn only_the_status_of_the_refresh_key_asks_for_another_walk() {
    assert!(asks_refresh(Some(82)));
    assert!(!asks_refresh(Some(0)));
    assert!(!asks_refresh(None));
    assert!(!less_args().is_empty());
}

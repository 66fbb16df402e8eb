use forkstack::ui::load::{load_graph_for, Snapshot};
use forkstack::ui::workspace::{cannot_read, discover, exact_repository};

/// What is known of a path: whether it has a `.git` entry, its working directory as a
/// repository, and its canonical form.
struct Place {
    path: &'static str,
    has_git: bool,
    workdir: Option<&'static str>,
}

/// The names of the repositories among the children of a directory.
fn children(places: &[Place]) -> Vec<String> {
    places
        .iter()
        .filter_map(|place| {
            exact_repository(
                place.has_git,
                &place.workdir.map(str::to_owned),
                &Some(place.path.to_owned()),
            )
        })
        .filter_map(|path| path.rsplit('/').next().map(str::to_owned))
        .collect()
}

fn repository(path: &'static str) -> Place {
    Place {
        path,
        has_git: true,
        workdir: Some(path),
    }
}

#[test]
fn discovers_only_root_and_immediate_children_in_stable_order() {
    let found = children(&[
        repository("/work/zeta"),
        repository("/work/alpha"),
        Place {
            path: "/work/ordinary",
            has_git: false,
            workdir: Some("/work"),
        },
        Place {
            path: "/work/invalid",
            has_git: true,
            workdir: None,
        },
        Place {
            path: "/work/bare.git",
            has_git: false,
            workdir: None,
        },
    ]);
    assert!(load_graph_for(&Snapshot {
        head: None,
        head_name: None,
        markers: vec![],
        files: vec![],
        refs: vec![],
        tags: vec![],
        walked: vec![],
    })
    .order
    .is_empty());
    let workspace = discover("/work", true, &found, &None);
    assert_eq!(workspace.initial.as_deref(), Some("/work"));
    assert_eq!(
        workspace.repositories,
        ["/work", "/work/alpha", "/work/zeta"]
    );
}

#[test]
fn parent_folder_does_not_activate_a_repository_and_rescan_finds_changes() {
    assert!(discover("/work", false, &vec![], &None)
        .repositories
        .is_empty());
    let workspace = discover("/work", false, &children(&[repository("/work/one")]), &None);
    assert!(workspace.initial.is_none());
    assert_eq!(workspace.repositories, ["/work/one"]);
    assert_eq!(
        discover(
            "/work",
            false,
            &children(&[repository("/work/renamed")]),
            &None
        )
        .repositories,
        ["/work/renamed"]
    );
    assert!(discover("/work", false, &vec![], &None)
        .repositories
        .is_empty());
}

#[test]
fn launching_inside_a_repository_keeps_the_enclosing_repository() {
    let enclosing = Some("/work/repo".to_owned());
    let workspace = discover("/work/repo/src/nested", false, &vec![], &enclosing);
    assert_eq!(workspace.initial, enclosing);
    assert_eq!(workspace.repositories, ["/work/repo"]);
    assert_eq!(workspace.root, "/work/repo/src/nested");
}

#[test]
fn worktrees_with_git_files_remain_distinct_from_the_main_checkout() {
    let found = children(&[repository("/work/main"), repository("/work/linked")]);
    assert_eq!(
        discover("/work", false, &found, &None).repositories,
        ["/work/linked", "/work/main"]
    );
    assert_eq!(
        discover("/work/linked", true, &vec![], &None).initial.as_deref(),
        Some("/work/linked")
    );
}

#[test]
fn child_symlinks_are_skipped_but_an_explicit_symlink_root_is_canonicalized() {
    let found = children(&[repository("/work/repo")]);
    assert_eq!(
        discover("/work", false, &found, &None).repositories,
        ["/work/repo"]
    );
    assert_eq!(
        discover("/work/repo", true, &vec![], &None).initial.as_deref(),
        Some("/work/repo")
    );
    assert_eq!(
        cannot_read("/work/missing", "no such file"),
        "cannot read /work/missing: no such file"
    );
}

#[test]
fn an_enclosing_repository_counts_only_where_none_is_found() {
    let enclosing = Some("/work".to_owned());
    let found = children(&[repository("/work/inner/repo")]);
    let workspace = discover("/work/inner", false, &found, &enclosing);
    assert_eq!(workspace.initial, None);
    assert_eq!(workspace.repositories, ["/work/inner/repo"]);
}

#[test]
fn repositories_are_ordered_step_by_step() {
    let found = children(&[repository("/a/b-c"), repository("/a/b")]);
    assert_eq!(
        discover("/a", false, &found, &None).repositories,
        ["/a/b", "/a/b-c"]
    );
}

#[test]
fn a_repository_stands_at_its_own_path() {
    assert_eq!(
        exact_repository(true, &Some("/a".into()), &Some("/a/b".into())),
        None
    );
    assert_eq!(exact_repository(true, &Some("/a".into()), &None), None);
}

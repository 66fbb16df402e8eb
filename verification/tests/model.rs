use forkstack::dict::Dict;
use forkstack::stack::submit::{RefUpdate, SubmitOptions, SubmitPlan};
use forkstack::ui::model::{Commit, Graph};

fn at<'a>(graph: &'a Graph, id: &str) -> &'a Commit {
    graph.commits.get(id).unwrap()
}

fn at_mut<'a>(graph: &'a mut Graph, id: &str) -> &'a mut Commit {
    graph.commits.get_mut(id).unwrap()
}

fn graph() -> Graph {
    let ids = ["a", "b", "c", "d"];
    let mut commits = Dict::new();
    for (index, id) in ids.iter().enumerate() {
        commits.insert(
            (*id).into(),
            Commit {
                id: (*id).into(),
                parents: index
                    .checked_sub(1)
                    .map(|i| vec![ids[i].into()])
                    .unwrap_or_default(),
                subject: (*id).into(),
                local_refs: if *id == "d" {
                    vec!["main".into()]
                } else {
                    Vec::new()
                },
                remote_refs: if *id == "d" {
                    vec!["origin/main".into()]
                } else {
                    Vec::new()
                },
                is_head: *id == "d",
                ..Commit::default()
            },
        );
    }
    Graph {
        commits,
        order: ids.iter().rev().map(|s| (*s).into()).collect(),
        head: "d".into(),
        branch: Some("main".into()),
    }
}

#[test]
fn plans_single_commit_and_substack_moves() {
    let mut graph = graph();
    let single = graph.plan_move("b", "c", false).unwrap();
    assert_eq!(
        single.commits,
        vec!["c".to_owned(), "b".to_owned(), "d".to_owned()]
    );
    graph.commits.insert(
        "x".into(),
        Commit {
            id: "x".into(),
            parents: vec!["a".into()],
            subject: "other stack".into(),
            ..Commit::default()
        },
    );
    let substack = graph.plan_move("c", "x", true).unwrap();
    assert!(substack.include_descendants);
    assert_eq!(substack.commits, vec!["c".to_owned(), "d".to_owned()]);
    assert_eq!(substack.destination, "x");
}

#[test]
fn intermediate_forkstack_branch_uses_unique_descendant_tip() {
    let mut graph = graph();
    at_mut(&mut graph, "b").local_refs = vec!["fs-head/test/1".into()];
    at_mut(&mut graph, "c").local_refs = vec!["fs-head/test/2".into()];
    at_mut(&mut graph, "d").local_refs = vec!["fs-head/test/3".into()];
    at_mut(&mut graph, "d").is_head = false;
    at_mut(&mut graph, "c").is_head = true;
    graph.head = "c".into();
    graph.branch = Some("fs-head/test/2".into());

    let plan = graph.plan_move("b", "c", false).unwrap();
    assert_eq!(plan.tip, "fs-head/test/3");
    assert_eq!(plan.tip_commit, "d");
    assert_eq!(
        plan.commits,
        vec!["c".to_owned(), "b".to_owned(), "d".to_owned()]
    );
}

#[test]
fn preview_moves_local_refs_but_preserves_remote_refs() {
    let graph = graph();
    let plan = graph.plan_move("b", "c", false).unwrap();
    let preview = graph.preview(&plan).unwrap();
    assert!(at(&preview, "d")
        .remote_refs
        .contains(&"origin/main".into()));
    assert!(at(&preview, "d").local_refs.is_empty());
    assert!(at(&preview, "preview:d")
        .local_refs
        .contains(&"main".into()));
    assert_eq!(preview.head, "preview:d");
    assert_eq!(
        at(&preview, "preview:b").parents,
        vec!["preview:c".to_owned()]
    );
}

#[test]
fn publish_preview_decorates_head_and_base_targets() {
    let mut graph = graph();
    at_mut(&mut graph, "c").local_refs.push("fs-head/test/1".into());
    at_mut(&mut graph, "c")
        .remote_refs
        .push("origin/fs-head/test/1".into());
    at_mut(&mut graph, "d")
        .remote_refs
        .push("origin/fs-base/test/1".into());
    let plan = SubmitPlan {
        options: SubmitOptions {
            remote: "origin".into(),
            ..SubmitOptions::default()
        },
        fork: "example/repo".into(),
        base_ref: "origin/main".into(),
        commits: Vec::new(),
        updates: vec![
            RefUpdate {
                branch: "fs-base/test/1".into(),
                rev: "a".into(),
            },
            RefUpdate {
                branch: "fs-head/test/1".into(),
                rev: "b".into(),
            },
        ],
    };
    let preview = graph.publish_preview(&plan).unwrap();
    assert!(at(&preview, "a")
        .remote_refs
        .contains(&"origin/fs-base/test/1".into()));
    assert!(at(&preview, "b")
        .remote_refs
        .contains(&"origin/fs-head/test/1".into()));
    assert!(at(&preview, "b")
        .local_refs
        .contains(&"fs-head/test/1".into()));
    assert!(at(&preview, "a").preview && at(&preview, "b").preview);
    assert!(!at(&preview, "c")
        .local_refs
        .contains(&"fs-head/test/1".into()));
    assert!(!at(&preview, "c")
        .remote_refs
        .contains(&"origin/fs-head/test/1".into()));
    assert!(!at(&preview, "d")
        .remote_refs
        .contains(&"origin/fs-base/test/1".into()));
}

#[test]
fn publish_preview_omits_commits_abandoned_by_moved_remote_ref() {
    let mut graph = graph();
    graph.commits.insert(
        "remote-old".into(),
        Commit {
            id: "remote-old".into(),
            parents: vec!["a".into()],
            subject: "old remote commit".into(),
            remote_refs: vec!["origin/fs-base/test/1".into()],
            ..Commit::default()
        },
    );
    graph.order.insert(0, "remote-old".into());
    let plan = SubmitPlan {
        options: SubmitOptions {
            remote: "origin".into(),
            ..SubmitOptions::default()
        },
        fork: "example/repo".into(),
        base_ref: "origin/main".into(),
        commits: Vec::new(),
        updates: vec![RefUpdate {
            branch: "fs-base/test/1".into(),
            rev: "b".into(),
        }],
    };

    let preview = graph.publish_preview(&plan).unwrap();

    assert!(!preview.commits.contains_key("remote-old"));
    assert!(!preview.order.contains(&"remote-old".to_owned()));
    assert!(preview.commits.contains_key("a"));
    assert!(preview.order.contains(&"a".to_owned()));
}

#[test]
fn preview_places_tip_branch_on_last_replayed_commit() {
    let mut graph = graph();
    at_mut(&mut graph, "d").local_refs.push("marker".into());
    let plan = graph.plan_move("b", "d", false).unwrap();
    assert_eq!(
        plan.commits,
        vec!["c".to_owned(), "d".to_owned(), "b".to_owned()]
    );

    let preview = graph.preview(&plan).unwrap();

    assert_eq!(preview.head, "preview:b");
    assert!(at(&preview, "preview:b").is_head);
    assert!(at(&preview, "preview:b")
        .local_refs
        .contains(&"main".into()));
    assert!(at(&preview, "preview:d")
        .local_refs
        .contains(&"marker".into()));
    assert!(!at(&preview, "preview:d")
        .local_refs
        .contains(&"main".into()));
    assert!(at(&preview, "d")
        .remote_refs
        .contains(&"origin/main".into()));
}

#[test]
fn forkstack_preview_keeps_layer_refs_with_logical_commits() {
    let mut graph = graph();
    at_mut(&mut graph, "b").local_refs = vec!["fs-head/test/1".into()];
    at_mut(&mut graph, "c").local_refs = vec!["fs-head/test/2".into()];
    at_mut(&mut graph, "d").local_refs = vec!["fs-head/test/3".into()];
    graph.branch = Some("fs-head/test/3".into());

    let plan = graph.plan_move("c", "d", false).unwrap();
    assert_eq!(plan.commits, vec!["d".to_owned(), "c".to_owned()]);
    assert!(plan.detach_for_rewrite);
    assert_eq!(plan.checkout_branch, "fs-head/test/2");

    let preview = graph.preview(&plan).unwrap();
    assert!(at(&preview, "preview:c")
        .local_refs
        .contains(&"fs-head/test/2".into()));
    assert!(at(&preview, "preview:d")
        .local_refs
        .contains(&"fs-head/test/3".into()));
    assert_eq!(preview.head, "preview:c");
    assert_eq!(preview.branch.as_deref(), Some("fs-head/test/2"));
}

fn insertion_graph() -> Graph {
    let entries = [
        ("root", None, None),
        ("alpha2", Some("root"), Some("fs-head/alpha/2")),
        ("alpha3", Some("alpha2"), Some("fs-head/alpha/3")),
        ("gamma1", Some("alpha3"), Some("fs-head/gamma/1")),
        ("gamma2", Some("gamma1"), Some("fs-head/gamma/2")),
        ("gamma3", Some("gamma2"), Some("fs-head/gamma/3")),
        ("beta2", Some("root"), Some("fs-head/beta/2")),
        ("beta3", Some("beta2"), Some("fs-head/beta/3")),
    ];
    let mut commits = Dict::new();
    for (id, parent, branch) in entries {
        commits.insert(
            id.into(),
            Commit {
                id: id.into(),
                parents: parent.into_iter().map(str::to_owned).collect(),
                subject: id.into(),
                local_refs: branch.into_iter().map(str::to_owned).collect(),
                is_head: id == "beta3",
                ..Commit::default()
            },
        );
    }
    Graph {
        commits,
        order: entries
            .iter()
            .rev()
            .map(|(id, _, _)| (*id).into())
            .collect(),
        head: "beta3".into(),
        branch: Some("fs-head/beta/3".into()),
    }
}

#[test]
fn substack_insertion_replays_destination_descendants_above_carried_commits() {
    let graph = insertion_graph();
    assert_eq!(graph.carried_substack("beta2").unwrap(), ["beta2", "beta3"]);
    let plan = graph.plan_move("beta3", "alpha2", true).unwrap();

    assert_eq!(plan.base, "alpha2");
    assert_eq!(plan.source_base, "beta2");
    assert_eq!(plan.carried_count, 1);
    assert_eq!(
        plan.commits,
        ["beta3", "alpha3", "gamma1", "gamma2", "gamma3"]
    );
    assert_eq!(plan.checkout_branch, "fs-head/gamma/3");

    let preview = graph.preview(&plan).unwrap();
    assert_eq!(at(&preview, "preview:beta3").parents, ["alpha2"]);
    assert_eq!(at(&preview, "preview:alpha3").parents, ["preview:beta3"]);
    assert_eq!(
        at(&preview, "preview:gamma1").parents,
        ["preview:alpha3"]
    );
    assert_eq!(preview.head, "preview:gamma3");
    assert_eq!(preview.branch.as_deref(), Some("fs-head/gamma/3"));
}

#[test]
fn substack_insertion_rejects_ambiguous_destination_descendants() {
    let mut graph = insertion_graph();
    graph.commits.insert(
        "other-tip".into(),
        Commit {
            id: "other-tip".into(),
            parents: vec!["alpha2".into()],
            subject: "other tip".into(),
            local_refs: vec!["fs-head/other/1".into()],
            ..Commit::default()
        },
    );

    let error = graph.plan_move("beta3", "alpha2", true).unwrap_err();
    assert!(error.contains("multiple descendant stack tips"));
}

#[test]
fn commits_are_not_moved_onto_themselves_or_unknown_places() {
    let graph = graph();
    assert_eq!(
        graph.plan_move("b", "b", false).unwrap_err(),
        "a commit cannot be dropped onto itself"
    );
    assert!(graph.plan_move("b", "nowhere", false).is_err());
    assert!(graph.plan_move("nowhere", "b", false).is_err());
}

#[test]
fn a_commit_is_not_moved_onto_its_own_substack() {
    let graph = graph();
    assert!(graph.plan_move("b", "d", true).is_err());
}

#[test]
fn ancestors_are_reached_by_any_parent() {
    let mut graph = graph();
    at_mut(&mut graph, "d").parents.push("x".into());
    graph.commits.insert(
        "x".into(),
        Commit {
            id: "x".into(),
            ..Commit::default()
        },
    );
    assert!(graph.is_ancestor("a", "d"));
    assert!(graph.is_ancestor("x", "d"));
    assert!(graph.is_ancestor("d", "d"));
    assert!(!graph.is_ancestor("d", "a"));
    assert!(!graph.is_ancestor("x", "c"));
}

#[test]
fn a_history_that_loops_is_an_error() {
    let mut graph = graph();
    at_mut(&mut graph, "a").parents.push("d".into());
    assert_eq!(
        graph.linear_segment("nowhere", "d").unwrap_err(),
        "the commit history loops back on itself"
    );
    assert_eq!(graph.linear_segment("a", "d").unwrap(), ["b", "c", "d"]);
}

#[test]
fn a_preview_keeps_the_commits_and_shows_the_rewritten_first() {
    let graph = graph();
    let plan = graph.plan_move("b", "c", false).unwrap();
    let preview = graph.preview(&plan).unwrap();
    assert_eq!(
        preview.order,
        ["preview:d", "preview:b", "preview:c", "d", "c", "b", "a"]
    );
    for id in ["a", "b", "c", "d"] {
        assert_eq!(at(&preview, id).parents, at(&graph, id).parents);
        assert!(!at(&preview, id).preview);
    }
    assert!(at(&preview, "preview:c").preview);
}

#[test]
fn publishing_an_unknown_commit_is_an_error() {
    let plan = SubmitPlan {
        options: SubmitOptions::default(),
        fork: "example/repo".into(),
        base_ref: "origin/main".into(),
        commits: Vec::new(),
        updates: vec![RefUpdate {
            branch: "fs-head/test/1".into(),
            rev: "nowhere".into(),
        }],
    };
    assert!(graph().publish_preview(&plan).is_err());
}

#[test]
fn a_publish_preview_changes_nothing_else_and_nothing_twice() {
    let mut graph = graph();
    at_mut(&mut graph, "b").tags = vec!["v1".into()];
    at_mut(&mut graph, "c").remote_refs = vec!["z/other".into(), "origin/fs-head/test/1".into()];
    let mut plan = SubmitPlan {
        options: SubmitOptions {
            remote: "origin".into(),
            ..SubmitOptions::default()
        },
        fork: "example/repo".into(),
        base_ref: "origin/main".into(),
        commits: Vec::new(),
        updates: vec![RefUpdate {
            branch: "fs-head/test/1".into(),
            rev: "b".into(),
        }],
    };
    let once = graph.publish_preview(&plan).unwrap();
    assert_eq!(at(&once, "b").tags, ["v1"]);
    assert_eq!(at(&once, "c").remote_refs, ["z/other"]);
    assert_eq!(at(&once, "c").parents, at(&graph, "c").parents);
    assert_eq!((&once.head, &once.branch), (&graph.head, &graph.branch));
    let twice = once.publish_preview(&plan).unwrap();
    assert_eq!(twice.order, once.order);
    for id in &once.order {
        assert_eq!(at(&twice, id), at(&once, id));
    }
    plan.updates[0].rev = "nowhere".into();
    assert!(graph.publish_preview(&plan).is_err());
}

#[test]
fn only_the_end_of_a_preview_is_checked_out() {
    let graph = graph();
    let plan = graph.plan_move("b", "c", false).unwrap();
    let preview = graph.preview(&plan).unwrap();
    assert_eq!(
        preview.order,
        [
            "preview:d",
            "preview:b",
            "preview:c",
            graph.order[0].as_str(),
            graph.order[1].as_str(),
            graph.order[2].as_str(),
            graph.order[3].as_str(),
        ]
    );
    for id in &preview.order {
        assert_eq!(at(&preview, id).is_head, *id == "preview:d", "{id}");
    }
}

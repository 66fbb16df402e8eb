use forkstack::dict::Dict;
use forkstack::integrations::github::PullRequestLink;
use forkstack::ui::links::{displayed_remote_heads, remote_pr_links};
use forkstack::ui::model::{Commit, Graph};
use forkstack::ui::render::{
    attach_pr_links, commit_label, commit_label_with_styles, render_graph, row_lines, RenderedLine, StyledRange, TextKind,
};
use forkstack::ui::style::{
    graph_line_style, help_line, help_line_with, hyperlink_sequence, styled_graph_line,
    text_kind_style, Color, Style,
};

fn one(commit: &Commit, branch: Option<&str>) -> Graph {
    let mut commits = Dict::new();
    commits.insert(commit.id.clone(), commit.clone());
    Graph {
        commits,
        order: vec![commit.id.clone()],
        branch: branch.map(str::to_owned),
        ..Graph::default()
    }
}

#[test]
fn head_decoration_uses_actual_branch_not_sorted_first_ref() {
    let commit = Commit {
        id: "abcdef012345".into(),
        subject: "subject".into(),
        local_refs: vec!["aaa-marker".into(), "main".into()],
        is_head: true,
        ..Commit::default()
    };
    let label = commit_label(&commit, Some("main"));
    assert!(label.contains("HEAD -> main"));
    assert!(label.contains("aaa-marker"));
    assert_eq!(label.matches("main").count(), 1);
}

#[test]
fn a_label_ends_with_the_subject_behind_its_coloured_parts() {
    let commit = Commit {
        id: "abcdef012345".into(),
        subject: "subject".into(),
        local_refs: vec!["main".into(), "topic".into()],
        remote_refs: vec!["origin/topic".into()],
        tags: vec!["v1".into()],
        is_head: true,
        ..Commit::default()
    };
    let (text, ranges) = commit_label_with_styles(&commit, Some("main"));
    assert_eq!(text, commit_label(&commit, Some("main")));
    assert!(text.ends_with(" subject"));
    assert_eq!((ranges[0].start, ranges[0].end), (0, 8));
    assert_eq!(ranges[0].kind, TextKind::CommitHash);
    assert!(ranges
        .iter()
        .all(|range| range.end + " subject".len() <= text.len()));
    let count = |kind| ranges.iter().filter(|range| range.kind == kind).count();
    assert_eq!(count(TextKind::CommitHash), 1);
    assert_eq!(count(TextKind::Head), 1);
    assert_eq!(count(TextKind::RemoteRef), 1);
    assert_eq!(count(TextKind::Tag), 1);
    assert_eq!(count(TextKind::LocalRef), 2);
    let (_, ranges) = commit_label_with_styles(&Commit::default(), None);
    assert!(ranges.iter().all(|range| range.kind != TextKind::Head));
}

#[test]
fn graph_marks_only_git_decoration_ranges_for_semantic_colors() {
    let commit = Commit {
        id: "abcdef012345".into(),
        subject: "subject remains plain".into(),
        local_refs: vec!["topic".into(), "main".into()],
        remote_refs: vec!["origin/topic".into()],
        tags: vec!["v1".into()],
        is_head: true,
        ..Commit::default()
    };
    let graph = one(&commit, Some("main"));

    let rendered = render_graph(&graph);
    let styled = rendered[0]
        .styles
        .iter()
        .map(|range| (&rendered[0].text[range.start..range.end], range.kind))
        .collect::<Vec<_>>();

    assert_eq!(
        styled,
        [
            ("abcdef01", TextKind::CommitHash),
            ("HEAD", TextKind::Head),
            ("main", TextKind::LocalRef),
            ("topic", TextKind::LocalRef),
            ("origin/topic", TextKind::RemoteRef),
            ("tag: v1", TextKind::Tag),
        ]
    );
    assert!(!styled.iter().any(|(text, _)| text.contains("subject")));
}

#[test]
fn preview_uses_styling_without_label_suffix() {
    let commit = Commit {
        id: "preview:abcdef012345".into(),
        subject: "subject".into(),
        preview: true,
        ..Commit::default()
    };
    let graph = one(&commit, None);

    assert_eq!(commit_label(&commit, None), "abcdef01 subject");
    let rendered = render_graph(&graph);
    assert!(rendered[0].preview);
    assert!(rendered[0].text.contains('◆'));
    assert!(!rendered[0].text.contains("[preview]"));
}

#[test]
fn existing_remote_ref_text_gets_a_link_without_extra_label_text() {
    let commit = Commit {
        id: "abcdef012345".into(),
        subject: "subject".into(),
        remote_refs: vec![
            "origin/fs-base/topic/1".into(),
            "origin/fs-head/topic/1".into(),
        ],
        ..Commit::default()
    };
    let graph = one(&commit, None);
    let original = commit_label(&commit, None);
    let mut rendered = render_graph(&graph);
    let mut links = Dict::new();
    links.insert(
        "origin/fs-head/topic/1".into(),
        PullRequestLink {
            number: 9,
            head_ref_name: "fs-head/topic/1".into(),
            url: "https://example.invalid/9".into(),
        },
    );
    attach_pr_links(&mut rendered, &graph, &links);

    assert!(rendered[0].text.ends_with(&original));
    assert_eq!(rendered[0].links.len(), 1);
    assert_eq!(rendered[0].links[0].text, "origin/fs-head/topic/1");
    assert_eq!(rendered[0].links[0].url, "https://example.invalid/9");
}

#[test]
fn links_stand_where_their_branches_do() {
    let commit = Commit {
        id: "abcdef012345".into(),
        subject: "subject".into(),
        remote_refs: vec!["origin/a".into(), "origin/b".into()],
        ..Commit::default()
    };
    let graph = one(&commit, None);
    let mut rendered = render_graph(&graph);
    let links = remote_pr_links(
        "origin",
        &vec![
            PullRequestLink {
                number: 2,
                head_ref_name: "b".into(),
                url: "https://example.invalid/2".into(),
            },
            PullRequestLink {
                number: 1,
                head_ref_name: "a".into(),
                url: "https://example.invalid/1".into(),
            },
        ],
    );
    attach_pr_links(&mut rendered, &graph, &links);
    let line = &rendered[0];
    assert_eq!(line.links.len(), 2);
    assert_eq!(line.links[0].text, "origin/a");
    assert_eq!(line.links[1].text, "origin/b");
    assert!(line.links[0].start < line.links[1].start);
    assert_eq!(line.links[0].width, 8);
    let column = line.text[..line.text.find("origin/a").unwrap()].chars().count();
    assert_eq!(line.links[0].start, column);
}

#[test]
fn wide_characters_take_two_columns_in_links() {
    let commit = Commit {
        id: "abcdef012345".into(),
        subject: "subject".into(),
        remote_refs: vec!["origin/\u{6f22}".into()],
        ..Commit::default()
    };
    let graph = one(&commit, None);
    let mut rendered = render_graph(&graph);
    let links = remote_pr_links(
        "origin",
        &vec![PullRequestLink {
            number: 1,
            head_ref_name: "\u{6f22}".into(),
            url: "u".into(),
        }],
    );
    attach_pr_links(&mut rendered, &graph, &links);
    assert_eq!(rendered[0].links[0].width, 9);
}

#[test]
fn conflicts_are_marked_and_named_without_a_colour() {
    let commit = Commit {
        id: "abcdef012345".into(),
        subject: "subject".into(),
        conflict: Some("incoming, conflict (rebase)".into()),
        ..Commit::default()
    };
    let rendered = render_graph(&one(&commit, None));
    assert!(rendered[0].conflict);
    assert!(rendered[0].text.contains('x'));
    assert!(rendered[0]
        .text
        .contains("abcdef01 (incoming, conflict (rebase)) subject"));
    assert_eq!(rendered[0].styles.len(), 1);
}

#[test]
fn a_detached_head_is_shown_alone() {
    let commit = Commit {
        id: "abcdef012345".into(),
        subject: "subject".into(),
        local_refs: vec!["main".into()],
        is_head: true,
        ..Commit::default()
    };
    assert_eq!(commit_label(&commit, None), "abcdef01 (HEAD, main) subject");
}

#[test]
fn rows_of_a_graph_follow_its_order() {
    let mut commits = Dict::new();
    for (id, parent) in [("b", Some("a")), ("a", None)] {
        commits.insert(
            id.to_owned(),
            Commit {
                id: id.into(),
                parents: parent.into_iter().map(str::to_owned).collect(),
                subject: format!("commit {id}"),
                ..Commit::default()
            },
        );
    }
    let graph = Graph {
        commits,
        order: vec!["b".into(), "unknown".into(), "a".into()],
        ..Graph::default()
    };
    let rendered = render_graph(&graph);
    let shown: Vec<_> = rendered
        .iter()
        .filter_map(|line| line.commit.as_deref())
        .collect();
    assert_eq!(shown, ["b", "a"]);
    assert_eq!(rendered[0].text, "o  b commit b");
    assert!(rendered.iter().any(|line| line.text == "o  a commit a"));
}

#[test]
fn what_is_drawn_is_cut_into_lines_with_the_commit_on_the_first() {
    let commit = Commit {
        id: "abcdef012345".into(),
        subject: "subject".into(),
        ..Commit::default()
    };
    let lines = row_lines(
        &commit,
        "abcdef012345",
        None,
        "│ o  abcdef01 subject\n├─╯\n",
    );
    assert_eq!(lines.len(), 2);
    assert_eq!(lines[0].commit.as_deref(), Some("abcdef012345"));
    assert_eq!(lines[1].commit, None);
    let range = lines[0].styles[0];
    assert_eq!(&lines[0].text[range.start..range.end], "abcdef01");
    assert!(lines[1].styles.is_empty());
    let other = row_lines(&commit, "abcdef012345", None, "something else");
    assert!(other[0].styles.is_empty());
}

#[test]
fn git_decoration_colors_match_the_requested_palette() {
    let base = Style {
        fg: None,
        bg: Some(Color::Rgb(64, 64, 64)),
        bold: false,
    };

    assert_eq!(
        text_kind_style(base, TextKind::CommitHash).fg,
        Some(Color::Yellow)
    );
    let head = text_kind_style(base, TextKind::Head);
    assert_eq!(head.fg, Some(Color::Cyan));
    assert!(head.bold);
    assert_eq!(
        text_kind_style(base, TextKind::LocalRef).fg,
        Some(Color::Green)
    );
    assert_eq!(
        text_kind_style(base, TextKind::RemoteRef).fg,
        Some(Color::Red)
    );
    assert_eq!(text_kind_style(base, TextKind::Tag).fg, Some(Color::Yellow));
    assert_eq!(head.bg, base.bg);
}

#[test]
fn osc_hyperlink_representation_rejects_control_characters() {
    assert_eq!(
        hyperlink_sequence("https://example.invalid/1", "origin/fs-head/topic/1"),
        Some("\x1b]8;;https://example.invalid/1\x07origin/fs-head/topic/1\x1b]8;;\x07".into())
    );
    assert!(hyperlink_sequence("https://example.invalid/\x1b", "origin").is_none());
    assert!(hyperlink_sequence("https://example.invalid/1", "ori\ngin").is_none());
}

#[test]
fn terminal_hyperlink_wraps_the_whole_ref_once() {
    let output =
        hyperlink_sequence("https://example.invalid/1", "origin/fs-head/topic/1").unwrap();

    assert!(output
        .contains("\x1b]8;;https://example.invalid/1\x07origin/fs-head/topic/1\x1b]8;;\x07"));
    assert_eq!(
        output.matches("\x1b]8;;https://example.invalid/1").count(),
        1
    );
    assert!(!output.contains("\x1b[4m"));
}

fn line(preview: bool, conflict: bool, commit: Option<&str>) -> RenderedLine {
    RenderedLine {
        text: "o  abcdef01 subject".into(),
        commit: commit.map(str::to_owned),
        preview,
        conflict,
        links: Vec::new(),
        styles: vec![StyledRange {
            start: 3,
            end: 11,
            kind: TextKind::CommitHash,
        }],
    }
}

#[test]
fn lines_show_previews_conflicts_carried_and_selected_commits() {
    let none = None;
    let plain = graph_line_style(&line(false, false, Some("a")), &none, &vec![]);
    assert_eq!(plain, Style { fg: None, bg: None, bold: false });
    let preview = graph_line_style(&line(true, false, Some("a")), &none, &vec![]);
    assert_eq!(preview.fg, Some(Color::Cyan));
    let conflict = graph_line_style(&line(true, true, Some("a")), &none, &vec![]);
    assert_eq!(conflict.fg, Some(Color::Red));
    assert!(conflict.bold);
    let carried = graph_line_style(&line(false, true, Some("a")), &none, &vec!["a".into()]);
    assert_eq!(carried.fg, Some(Color::Yellow));
    let selected = graph_line_style(&line(false, false, Some("a")), &Some("a".into()), &vec![]);
    assert_eq!(selected.bg, Some(Color::Rgb(64, 64, 64)));
}

#[test]
fn a_styled_line_keeps_its_text() {
    let line = line(false, false, Some("a"));
    let styled = styled_graph_line(&line, Style { fg: None, bg: None, bold: false });
    assert_eq!(styled.text(), line.text);
    let texts: Vec<_> = styled.spans.iter().map(|span| span.text.as_str()).collect();
    assert_eq!(texts, ["o  ", "abcdef01", " subject"]);
    assert_eq!(styled.spans[1].style.fg, Some(Color::Yellow));
}

#[test]
fn help_is_aligned_by_columns_not_bytes() {
    assert_eq!(help_line("↑/↓, j/k", "x").text(), "↑/↓, j/k     x");
    assert_eq!(help_line_with("ab", "x", 13).text(), "abx");
    assert_eq!(help_line_with("ab", "x", 20).text(), "abx");
    assert_eq!(help_line_with("ab", "x", 12).text(), "ab x");
}

#[test]
fn displayed_heads_are_those_of_one_remote_each_once() {
    let mut commits = Dict::new();
    for (id, refs) in [
        ("a", vec!["origin/fs-head/b", "upstream/x"]),
        ("b", vec!["origin/fs-head/a", "origin/fs-head/b"]),
    ] {
        commits.insert(
            id.to_owned(),
            Commit {
                id: id.into(),
                remote_refs: refs.into_iter().map(str::to_owned).collect(),
                ..Commit::default()
            },
        );
    }
    let graph = Graph {
        commits,
        ..Graph::default()
    };
    assert_eq!(
        displayed_remote_heads(&graph, "origin"),
        ["fs-head/a", "fs-head/b"]
    );
}

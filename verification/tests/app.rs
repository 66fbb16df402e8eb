use forkstack::dict::Dict;
use forkstack::integrations::github::PullRequestLink;
use forkstack::stack::submit::{SubmitOptions, SubmitPlan};
use forkstack::ui::app::{checkout_branch, preserve_preview_while_navigating, App, Pane};
use forkstack::ui::event::{Operation, OperationRequest, OperationResult, UiEvent};
use forkstack::ui::keys::{help_transition, move_pick, KeyCode, KeyEvent, TerminalEvent};
use forkstack::ui::model::{Commit, Graph, MovePlan};
use forkstack::ui::screen::{compact_footer, help_lines, Area, Screen, Widget};
use forkstack::ui::sound::{is_sound, is_sound_result};
use forkstack::ui::state::Busy;
use forkstack::ui::workspace::Workspace;

fn test_app() -> App {
    let mut app = App::with_workspace(
        SubmitOptions::default(),
        Workspace {
            root: ".".into(),
            repositories: vec![".".into()],
            initial: None,
        },
    );
    app.active = Some(".".into());
    app.pane = Pane::Graph;
    app
}

fn graph_response() -> OperationResult {
    OperationResult {
        repo: ".".into(),
        id: 0,
        graph: Ok(Graph::default()),
        preview: None,
        publish_plan: None,
        pr_links: None,
        operation_error: None,
    }
}

fn workspace_app() -> App {
    let mut app = test_app();
    app.active = None;
    app.pane = Pane::Repositories;
    app.workspace = Workspace {
        root: "/projects".into(),
        repositories: vec!["/projects/alpha".into(), "/projects/jupiter".into()],
        initial: None,
    };
    app
}

fn key(app: &mut App, code: KeyCode) {
    app.handle_key(KeyEvent::plain(code));
}

fn loaded(request: &OperationRequest) -> OperationResult {
    let mut response = graph_response();
    response.repo = request.options.repo.clone();
    response.id = request.id;
    let mut commits = Dict::new();
    for id in ["a", "b"] {
        commits.insert(
            id.to_owned(),
            Commit {
                id: id.into(),
                subject: format!("commit {id}"),
                ..Default::default()
            },
        );
    }
    response.graph = Ok(Graph {
        commits,
        order: vec!["a".into(), "b".into()],
        ..Default::default()
    });
    assert!(is_sound_result(&response));
    response
}

/// Draws text into rows of characters.
fn put(rows: &mut Vec<Vec<char>>, area: Area, row: u16, column: u16, text: &str) {
    let mut x = area.x + column;
    for c in text.chars() {
        let y = area.y + row;
        if row < area.height
            && x < area.x + area.width
            && (y as usize) < rows.len()
            && (x as usize) < rows[0].len()
        {
            rows[y as usize][x as usize] = c;
        }
        x = x.saturating_add(1);
    }
}

fn drawn(app: &mut App, width: u16, height: u16) -> Screen {
    let size = Area {
        x: 0,
        y: 0,
        width,
        height,
    };
    let areas = app.screen_areas(size);
    app.render_frame(&areas)
}

fn screen(app: &mut App, width: u16, height: u16) -> String {
    let frame = drawn(app, width, height);
    let mut rows = vec![vec![' '; width as usize]; height as usize];
    for widget in &frame.widgets {
        match widget {
            Widget::Border { area, title, .. } => put(&mut rows, *area, 0, 1, title),
            Widget::Lines { area, lines, .. } => {
                for (row, line) in lines.iter().enumerate() {
                    put(&mut rows, *area, row as u16, 0, &line.text());
                }
            }
            Widget::Clear { area } => {
                for row in 0..area.height {
                    put(&mut rows, *area, row, 0, &" ".repeat(area.width as usize));
                }
            }
        }
    }
    rows.into_iter()
        .map(|row| row.into_iter().collect::<String>())
        .collect::<Vec<_>>()
        .join("\n")
}

#[test]
fn browsing_filtering_and_pane_focus_never_load_history() {
    let mut app = workspace_app();
    assert!(screen(&mut app, 100, 15).contains("Select a repository"));
    key(&mut app, KeyCode::Down);
    key(&mut app, KeyCode::Tab);
    assert!(app.pane == Pane::Graph);
    key(&mut app, KeyCode::BackTab);
    key(&mut app, KeyCode::Char('/'));
    key(&mut app, KeyCode::Char('j'));
    assert_eq!(app.repository_search.query, "j");
    assert_eq!(app.filtered_repositories(), vec!["/projects/jupiter"]);
    key(&mut app, KeyCode::Enter); // Finish typing, then explicitly activate.
    assert!(app.take_request().is_none());
    assert!(app.active.is_none());
    key(&mut app, KeyCode::Enter);
    let request = app.take_request().unwrap();
    assert!(matches!(request.operation, Operation::Load));
    assert_eq!(request.options.repo, "/projects/jupiter");
    assert!(app.pane == Pane::Repositories);
}

#[test]
fn switching_restores_graph_selection_scroll_and_independent_searches() {
    let mut app = workspace_app();
    key(&mut app, KeyCode::Enter);
    let alpha = app.take_request().unwrap();
    app.receive(loaded(&alpha));
    key(&mut app, KeyCode::Tab);
    key(&mut app, KeyCode::Char('/'));
    key(&mut app, KeyCode::Char('b'));
    key(&mut app, KeyCode::Down);
    assert_eq!(app.state.selected.as_deref(), Some("b"));
    key(&mut app, KeyCode::Esc);
    app.state.scroll = 9;
    let rendered = app.state.rendered.clone();
    key(&mut app, KeyCode::BackTab);
    key(&mut app, KeyCode::Down);
    key(&mut app, KeyCode::Enter);
    let jupiter = app.take_request().unwrap();
    assert!(app.state.search.query.is_empty());
    app.receive(loaded(&jupiter));
    key(&mut app, KeyCode::Up);
    key(&mut app, KeyCode::Enter);
    assert!(app.take_request().is_none());
    assert_eq!(app.state.scroll, 9);
    assert_eq!(app.state.selected.as_deref(), Some("b"));
    assert_eq!(app.state.search.query, "b");
    assert!(app.repository_search.query.is_empty());
    assert_eq!(
        app.state
            .rendered
            .iter()
            .map(|r| &r.text)
            .collect::<Vec<_>>(),
        rendered.iter().map(|r| &r.text).collect::<Vec<_>>()
    );
}

#[test]
fn late_loads_are_cached_without_rendering_or_replacing_the_active_graph() {
    let mut app = workspace_app();
    key(&mut app, KeyCode::Enter);
    let alpha = app.take_request().unwrap();
    key(&mut app, KeyCode::Down);
    key(&mut app, KeyCode::Enter);
    let jupiter = app.take_request().unwrap();
    app.receive(loaded(&alpha));
    assert!(app.state.graph.is_none());
    assert!(app.cached.get(&alpha.options.repo).unwrap().graph.is_some());
    assert!(app
        .cached
        .get(&alpha.options.repo)
        .unwrap()
        .rendered
        .is_empty());
    assert_eq!(app.state.busy, Some(Busy::Load));
    app.receive(loaded(&jupiter));
    key(&mut app, KeyCode::Up);
    key(&mut app, KeyCode::Enter);
    assert!(!app.state.rendered.is_empty());
    assert!(app.take_request().is_none());
    // A response from an older request cannot clear a newer load or replace state.
    app.start_operation(Operation::Load, Busy::Load, "loading");
    let newer = app.take_request().unwrap();
    let mut stale = loaded(&alpha);
    stale.graph = Err("old error".into());
    app.receive(stale);
    assert_eq!(app.state.request_id, newer.id);
    assert_eq!(app.state.busy, Some(Busy::Load));
    assert!(!app.state.status_error);
}

#[test]
fn switching_cancels_previews_and_mutations_block_activation() {
    let mut app = workspace_app();
    key(&mut app, KeyCode::Enter);
    let alpha = app.take_request().unwrap();
    app.receive(loaded(&alpha));
    app.state.preview = Some(Graph::default());
    app.state.carried = Some("a".into());
    key(&mut app, KeyCode::Down);
    key(&mut app, KeyCode::Enter);
    let jupiter = app.take_request().unwrap();
    assert!(app
        .cached
        .get(&alpha.options.repo)
        .unwrap()
        .preview
        .is_none());
    assert!(app
        .cached
        .get(&alpha.options.repo)
        .unwrap()
        .carried
        .is_none());
    app.receive(loaded(&jupiter));
    app.state.busy = Some(Busy::Mutation);
    key(&mut app, KeyCode::Up);
    key(&mut app, KeyCode::Enter);
    assert_eq!(app.active.as_ref(), Some(&jupiter.options.repo));
    assert!(app.state.status_error);
    assert!(app.take_request().is_none());
}

#[test]
fn cancelled_in_flight_preview_does_not_reappear_after_returning() {
    let mut app = workspace_app();
    key(&mut app, KeyCode::Enter);
    let alpha = app.take_request().unwrap();
    key(&mut app, KeyCode::Down);
    key(&mut app, KeyCode::Enter);
    let _jupiter = app.take_request().unwrap();
    key(&mut app, KeyCode::Up);
    key(&mut app, KeyCode::Enter);
    let mut response = loaded(&alpha);
    response.preview = Some(Graph::default());
    app.receive(response);
    assert!(app.state.preview.is_none());
    assert!(app.take_request().is_none());
}

#[test]
fn narrow_terminal_shows_focused_pane_and_preserves_hidden_graph_scroll() {
    let mut app = workspace_app();
    key(&mut app, KeyCode::Enter);
    let alpha = app.take_request().unwrap();
    app.receive(loaded(&alpha));
    let wide = screen(&mut app, 100, 15);
    assert!(wide.contains("● alpha"));
    assert!(wide.contains("commit a"));
    key(&mut app, KeyCode::Down);
    assert_eq!(app.active.as_ref(), Some(&alpha.options.repo));
    app.state.scroll = 9;
    let narrow = screen(&mut app, 50, 10);
    assert!(narrow.contains("Repositories"));
    assert!(!narrow.contains("commit a"));
    assert_eq!(app.state.scroll, 9);
    key(&mut app, KeyCode::Tab);
    let graph = screen(&mut app, 50, 10);
    assert!(!graph.contains("Repositories"));
    assert!(graph.contains("commit a"));
    screen(&mut app, 1, 1); // Tiny resizes must not panic.
}

#[test]
fn move_bindings_use_lowercase_for_commit_and_uppercase_for_substack() {
    assert_eq!(
        move_pick(&KeyEvent::plain(KeyCode::Char('m'))),
        Some(false)
    );
    assert_eq!(
        move_pick(&KeyEvent {
            code: KeyCode::Char('M'),
            shift: true,
            control: false
        }),
        Some(true)
    );
    assert_eq!(move_pick(&KeyEvent::plain(KeyCode::Char(' '))), None);
    assert_eq!(move_pick(&KeyEvent::plain(KeyCode::Char('s'))), None);
}

#[test]
fn navigation_preserves_only_publish_previews() {
    assert!(preserve_preview_while_navigating(true));
    assert!(!preserve_preview_while_navigating(false));
}

#[test]
fn checkout_uses_a_unique_displayed_local_branch() {
    let mut commits = Dict::new();
    commits.insert(
        "one".to_owned(),
        Commit {
            local_refs: vec!["fs-head/topic/1".into()],
            ..Commit::default()
        },
    );
    commits.insert(
        "many".to_owned(),
        Commit {
            local_refs: vec!["main".into(), "fs-head/topic/1".into()],
            ..Commit::default()
        },
    );
    let graph = Graph {
        commits,
        ..Graph::default()
    };

    assert_eq!(
        checkout_branch(&graph, "one").as_deref(),
        Some("fs-head/topic/1")
    );
    assert_eq!(checkout_branch(&graph, "many"), None);
    assert_eq!(checkout_branch(&graph, "missing"), None);
}

#[test]
fn help_is_modal_and_toggles_with_question_mark_or_escape() {
    let question = KeyEvent::plain(KeyCode::Char('?'));
    let escape = KeyEvent::plain(KeyCode::Esc);
    let action = KeyEvent::plain(KeyCode::Char('m'));

    assert_eq!(help_transition(false, &question), Some(true));
    assert_eq!(help_transition(true, &action), Some(true));
    assert_eq!(help_transition(true, &question), Some(false));
    assert_eq!(help_transition(true, &escape), Some(false));
    assert_eq!(help_transition(false, &action), None);
}

#[test]
fn footer_is_compact_and_full_key_map_lives_in_help() {
    let footer = compact_footer().text();
    assert!(footer.contains("Enter open/confirm"));
    assert!(footer.contains("? help"));
    assert!(footer.contains("q quit"));
    assert!(!footer.contains("move"));
    assert!(!footer.contains("publish"));
    assert!(!footer.contains("search"));

    let help = help_lines()
        .into_iter()
        .map(|line| line.text())
        .collect::<Vec<_>>();
    assert_eq!(help.len(), 13);
    for binding in [
        "m/M          move commit / substack",
        "p            preview publish and stack link",
        "u            preview upstream publish and stack link",
        "/            search focused pane",
        "r            rescan; in graph also refresh graph/PRs",
    ] {
        assert!(
            help.iter().any(|line| line == binding),
            "missing aligned line {binding:?} from {help:?}"
        );
    }
}

#[test]
fn publish_keys_select_the_configured_and_upstream_remotes() {
    let mut origin_app = test_app();
    origin_app.publish_options.remote = "origin".into();
    origin_app.handle_key(KeyEvent::plain(KeyCode::Char('p')));
    assert!(matches!(
        origin_app.take_request().unwrap().operation,
        Operation::PublishPreview(options) if options.remote == "origin"
    ));

    let mut upstream_app = test_app();
    upstream_app.handle_key(KeyEvent::plain(KeyCode::Char('u')));
    assert!(matches!(
        upstream_app.take_request().unwrap().operation,
        Operation::PublishPreview(options) if options.remote == "upstream"
    ));
}

fn pending() -> MovePlan {
    MovePlan {
        selected: "selected".into(),
        destination: "destination".into(),
        include_descendants: false,
        base: "base".into(),
        source_base: "source-base".into(),
        carried_count: 1,
        tip: "tip".into(),
        tip_commit: "tip-commit".into(),
        detach_for_rewrite: false,
        checkout_branch: "branch".into(),
        ref_updates: Vec::new(),
        commits: vec!["selected".into()],
    }
}

#[test]
fn enter_confirms_move_and_publish_previews() {
    let mut move_app = test_app();
    move_app.state.pending = Some(pending());
    move_app.enter();
    assert!(matches!(
        move_app.take_request().unwrap().operation,
        Operation::Apply(_)
    ));

    let mut publish_app = test_app();
    publish_app.state.publish_plan = Some(SubmitPlan {
        options: SubmitOptions::default(),
        fork: "owner/repo".into(),
        base_ref: "origin/main".into(),
        commits: Vec::new(),
        updates: Vec::new(),
    });
    publish_app.enter();
    assert!(matches!(
        publish_app.take_request().unwrap().operation,
        Operation::PublishExecute(_)
    ));
}

#[test]
fn removed_stack_and_uppercase_keys_do_nothing() {
    let mut app = test_app();
    for key in ['a', 's', 'P', 'R'] {
        app.handle_key(KeyEvent::plain(KeyCode::Char(key)));
    }
    assert!(app.take_request().is_none());

    app.refresh();
    assert!(matches!(
        app.take_request().unwrap().operation,
        Operation::Refresh
    ));
}

#[test]
fn graph_load_does_not_fetch_pr_links_without_explicit_refresh() {
    let mut app = test_app();
    app.receive(graph_response());
    assert_eq!(app.state.pr_links.len(), 0);
}

#[test]
fn explicit_refresh_is_one_combined_operation() {
    let mut app = test_app();
    app.refresh();
    assert!(matches!(
        app.take_request().unwrap().operation,
        Operation::Refresh
    ));
    assert!(app.take_request().is_none());
}

fn link() -> PullRequestLink {
    PullRequestLink {
        number: 1,
        head_ref_name: "fs-head/topic/1".into(),
        url: "https://example.invalid/1".into(),
    }
}

#[test]
fn normal_graph_updates_keep_existing_pr_links_without_refetching() {
    let mut app = test_app();
    app.state
        .pr_links
        .insert("origin/fs-head/topic/1".into(), link());
    app.receive(graph_response());

    assert_eq!(app.state.pr_links.len(), 1);
    assert!(app.take_request().is_none());
}

#[test]
fn successful_publish_updates_pr_links_without_refetching() {
    let mut app = test_app();
    let mut links = Dict::new();
    links.insert("origin/fs-head/topic/1".into(), link());
    app.receive(OperationResult {
        pr_links: Some(Ok(links)),
        ..graph_response()
    });

    assert!(app.state.pr_links.get("origin/fs-head/topic/1") == Some(&link()));
    assert!(app.take_request().is_none());
}

fn two_commits() -> Graph {
    let mut commits = Dict::new();
    for id in ["a", "b"] {
        commits.insert(
            id.to_owned(),
            Commit {
                id: id.into(),
                ..Commit::default()
            },
        );
    }
    Graph {
        commits,
        order: vec!["a".into(), "b".into()],
        ..Graph::default()
    }
}

#[test]
fn navigation_and_help_remain_available_while_an_operation_runs() {
    let mut app = test_app();
    app.state.graph = Some(two_commits());
    app.state.selected = Some("a".into());
    app.state.busy = Some(Busy::Load);

    app.handle_key(KeyEvent::plain(KeyCode::Down));
    assert_eq!(app.state.selected.as_deref(), Some("b"));
    app.handle_key(KeyEvent::plain(KeyCode::Char('?')));
    assert!(app.help_open);
    app.handle_key(KeyEvent::plain(KeyCode::Char('?')));
    app.handle_key(KeyEvent::plain(KeyCode::Char('/')));
    assert!(app.state.search.editing);
}

#[test]
fn workflow_and_quit_keys_are_rejected_while_an_operation_runs() {
    for key in [
        KeyCode::Char('m'),
        KeyCode::Char('M'),
        KeyCode::Enter,
        KeyCode::Char('p'),
        KeyCode::Char('r'),
        KeyCode::Char('u'),
        KeyCode::Char('q'),
    ] {
        let mut app = test_app();
        app.state.busy = Some(Busy::Load);
        app.state.selected = Some("selected".into());
        app.state.carried = (key == KeyCode::Enter).then(|| "carried".into());

        app.handle_key(KeyEvent::plain(key));

        assert_eq!(
            app.state.status.as_deref(),
            Some("another operation is already running")
        );
        assert!(app.state.status_error);
        assert!(app.state.pending.is_none());
        assert!(app.state.preview.is_none());
        assert!(!app.quit);
        assert!(app.take_request().is_none());
    }
}

#[test]
fn a_second_operation_is_rejected_with_a_visible_error() {
    let mut app = test_app();
    assert!(app.start_operation(Operation::Load, Busy::Load, "loading…"));

    app.refresh();

    assert_eq!(
        app.state.status.as_deref(),
        Some("another operation is already running")
    );
    assert!(app.state.status_error);
    assert!(matches!(
        app.take_request().unwrap().operation,
        Operation::Load
    ));
    assert!(app.take_request().is_none());
}

#[test]
fn worker_completion_is_a_ui_event() {
    let event = UiEvent::OperationCompleted(Box::new(graph_response()));
    let mut app = test_app();
    app.dirty = false;
    app.handle(event).unwrap();
    assert!(app.state.graph.is_some());
    assert!(app.dirty);
}

#[test]
fn an_unsent_move_waits_again() {
    let mut app = test_app();
    app.state.pending = Some(pending());
    app.apply();
    assert!(app.state.pending.is_none());
    let request = app.take_request().unwrap();
    app.send_failed(request);
    assert_eq!(app.state.pending, Some(pending()));
    assert_eq!(app.state.busy, None);
    assert_eq!(
        app.state.status.as_deref(),
        Some("operation worker is unavailable")
    );
}

#[test]
fn events_of_the_terminal_are_handled() {
    let mut app = test_app();
    app.dirty = false;
    app.handle(UiEvent::Terminal(TerminalEvent::Other)).unwrap();
    assert!(!app.dirty);
    app.handle(UiEvent::Terminal(TerminalEvent::Resize)).unwrap();
    assert!(app.dirty);
    app.handle(UiEvent::Terminal(TerminalEvent::Press(KeyEvent::plain(
        KeyCode::Char('q'),
    ))))
    .unwrap();
    assert!(app.quit);
    assert_eq!(
        app.handle(UiEvent::InputError("gone".into())),
        Err("gone".into())
    );
}

#[test]
fn a_rescan_keeps_what_is_still_there() {
    let mut app = workspace_app();
    key(&mut app, KeyCode::Enter);
    let alpha = app.take_request().unwrap();
    app.receive(loaded(&alpha));
    key(&mut app, KeyCode::Down);
    key(&mut app, KeyCode::Char('r'));
    assert_eq!(app.rescan, Some(false));
    app.rescanned(Ok(Workspace {
        root: "/projects".into(),
        repositories: vec![
            "/projects/alpha".into(),
            "/projects/beta".into(),
            "/projects/jupiter".into(),
        ],
        initial: None,
    }));
    assert_eq!(app.rescan, None);
    assert_eq!(app.active.as_deref(), Some("/projects/alpha"));
    assert_eq!(app.repository_cursor, 2);
    app.rescanned(Ok(Workspace {
        root: "/projects".into(),
        repositories: vec!["/projects/beta".into()],
        initial: None,
    }));
    assert_eq!(app.active, None);
    assert!(app.state.graph.is_none());
    assert!(app.pane == Pane::Repositories);
    app.rescanned(Err("cannot read".into()));
    assert_eq!(app.state.status.as_deref(), Some("cannot read"));
    assert!(app.state.status_error);
}

#[test]
fn a_rescan_in_the_graph_refreshes_it() {
    let mut app = test_app();
    key(&mut app, KeyCode::Char('r'));
    assert_eq!(app.rescan, Some(true));
    app.rescanned(Ok(Workspace {
        root: ".".into(),
        repositories: vec![".".into()],
        initial: None,
    }));
    assert!(matches!(
        app.take_request().unwrap().operation,
        Operation::Refresh
    ));
}

#[test]
fn commits_are_picked_up_and_dropped() {
    let mut commits = Dict::new();
    for (id, parent, branch) in [
        ("a", None, None),
        ("b", Some("a"), None),
        ("c", Some("b"), Some("main")),
    ] {
        commits.insert(
            id.to_owned(),
            Commit {
                id: id.into(),
                parents: parent.into_iter().map(str::to_owned).collect(),
                local_refs: branch.into_iter().map(str::to_owned).collect(),
                is_head: id == "c",
                subject: format!("commit {id}"),
                ..Commit::default()
            },
        );
    }
    let graph = Graph {
        commits,
        order: vec!["c".into(), "b".into(), "a".into()],
        head: "c".into(),
        branch: Some("main".into()),
    };
    assert!(is_sound(&graph));
    let mut app = test_app();
    app.state.graph = Some(graph);
    app.state.selected = Some("b".into());
    key(&mut app, KeyCode::Char('m'));
    assert_eq!(app.state.carried.as_deref(), Some("b"));
    assert_eq!(app.state.carried_commits, ["b"]);
    key(&mut app, KeyCode::Up);
    key(&mut app, KeyCode::Enter);
    let plan = app.state.pending.clone().unwrap();
    assert_eq!(plan.commits, ["c", "b"]);
    assert!(app.state.preview.is_some());
    assert!(app
        .state
        .rendered
        .iter()
        .any(|line| line.text.contains('◆')));
    key(&mut app, KeyCode::Down);
    assert!(app.state.preview.is_none());
    assert!(app.state.pending.is_none());
    assert_eq!(app.state.carried.as_deref(), Some("b"));
    app.state.selected = Some("b".into());
    key(&mut app, KeyCode::Enter);
    assert_eq!(
        app.state.status.as_deref(),
        Some("a commit cannot be dropped onto itself")
    );
    key(&mut app, KeyCode::Esc);
    assert_eq!(app.state.carried, None);
    key(&mut app, KeyCode::Char('M'));
    assert_eq!(app.state.carried_commits, ["b", "c"]);
    key(&mut app, KeyCode::Esc);
    app.state.selected = Some("c".into());
    key(&mut app, KeyCode::Enter);
    assert!(matches!(
        app.take_request().unwrap().operation,
        Operation::Checkout { revision, branch } if revision == "c" && branch.as_deref() == Some("main")
    ));
}

#[test]
fn matches_are_found_in_any_case_and_lead_round() {
    let mut app = test_app();
    let mut graph = two_commits();
    graph.commits.get_mut("a").unwrap().subject = "FIX one".into();
    graph.commits.get_mut("b").unwrap().subject = "fix two".into();
    app.state.graph = Some(graph);
    key(&mut app, KeyCode::Char('/'));
    for c in ['F', 'i', 'x', '!'] {
        key(&mut app, KeyCode::Char(c));
    }
    assert!(app.state.search.matches.is_empty());
    key(&mut app, KeyCode::Backspace);
    assert_eq!(app.state.search.matches, ["a", "b"]);
    key(&mut app, KeyCode::Enter);
    assert_eq!(app.state.selected.as_deref(), Some("a"));
    key(&mut app, KeyCode::Char('n'));
    assert_eq!(app.state.selected.as_deref(), Some("b"));
    key(&mut app, KeyCode::Char('n'));
    assert_eq!(app.state.selected.as_deref(), Some("a"));
    key(&mut app, KeyCode::Char('N'));
    assert_eq!(app.state.selected.as_deref(), Some("b"));
}

#[test]
fn repositories_are_found_in_any_case_and_by_path_with_a_slash() {
    let mut app = workspace_app();
    app.repository_search.query = "ALP".into();
    assert_eq!(app.filtered_repositories(), ["/projects/alpha"]);
    app.repository_search.query = "projects".into();
    assert!(app.filtered_repositories().is_empty());
    app.repository_search.query = "projects/j".into();
    assert_eq!(app.filtered_repositories(), ["/projects/jupiter"]);
}

#[test]
fn links_are_drawn_within_the_graph_and_not_over_the_help() {
    let mut app = test_app();
    let mut graph = two_commits();
    graph.commits.get_mut("a").unwrap().remote_refs = vec!["origin/topic".into()];
    app.state.graph = Some(graph);
    app.state.pr_links.insert("origin/topic".into(), link());
    app.update_rendered();
    let frame = drawn(&mut app, 100, 15);
    assert_eq!(frame.links.len(), 1);
    assert_eq!(frame.links[0].text, "origin/topic");
    assert_eq!(frame.links[0].url, "https://example.invalid/1");
    let narrow = drawn(&mut app, 14, 15);
    assert!(narrow
        .links
        .iter()
        .all(|link| "origin/topic".starts_with(&link.text)));
    app.help_open = true;
    let help = drawn(&mut app, 100, 30);
    assert!(help.links.is_empty());
    assert!(screen(&mut app, 100, 30).contains("focus next/previous pane"));
}

#[test]
fn graphs_whose_ids_cannot_be_shortened_are_told_apart() {
    let mut commits = Dict::new();
    commits.insert("ab\u{20ac}\u{20ac}\u{20ac}".to_owned(), Commit::default());
    let graph = Graph {
        commits,
        ..Graph::default()
    };
    assert!(is_sound(&graph));
    let mut commits = Dict::new();
    commits.insert("a\u{20ac}\u{20ac}\u{20ac}".to_owned(), Commit::default());
    assert!(!is_sound(&Graph {
        commits,
        ..Graph::default()
    }));
}

#[test]
fn the_help_stands_in_the_middle() {
    let app = test_app();
    let help = |x: u16, y: u16, width: u16, height: u16| {
        let size = Area {
            x,
            y,
            width,
            height,
        };
        let help = app.screen_areas(size).help;
        (help.x, help.y, help.width, help.height)
    };
    assert_eq!(help(0, 0, 100, 30), (16, 7, 68, 16));
    assert_eq!(help(0, 0, 101, 31), (17, 8, 68, 16));
    assert_eq!(help(0, 0, 40, 10), (0, 0, 40, 10));
    assert_eq!(help(0, 0, 0, 0), (0, 0, 0, 0));
    for (x, y) in [(0, 0), (3, 5)] {
        for n in 0..200 {
            let (left, _, width, _) = help(x, y, n, 24);
            assert_eq!(width, n.min(68), "{n}");
            assert_eq!(left, x + (n - width + 1) / 2, "{n}");
            let (_, top, _, height) = help(x, y, 80, n);
            assert_eq!(height, n.min(16), "{n}");
            assert_eq!(top, y + (n - height + 1) / 2, "{n}");
        }
    }
    assert_eq!(help(65435, 0, 200, 24), (65451, 4, 68, 16));
    assert_eq!(help(65500, 65530, 100, 20), (65500, 65530, 35, 5));
    assert_eq!(help(0, 0, 65535, 65535), (32734, 32760, 68, 16));
}

#[test]
fn the_panes_fill_the_terminal() {
    let graph = test_app();
    let list = workspace_app();
    let at = |area: Area| (area.x, area.y, area.width, area.height);
    for (x, y) in [(0, 0), (2, 3)] {
        for height in 3..60 {
            for width in [0, 1, 26, 27, 79, 80, 81, 200] {
                let size = Area {
                    x,
                    y,
                    width,
                    height,
                };
                let areas = graph.screen_areas(size);
                assert_eq!(at(areas.content), (x, y, width, height - 2));
                assert_eq!(at(areas.message), (x, y + height - 2, width, 1));
                assert_eq!(at(areas.footer), (x, y + height - 1, width, 1));
                if width < 80 {
                    assert_eq!(areas.graph, areas.content);
                    assert_eq!(at(areas.list), (0, 0, 0, 0));
                }
                let areas = list.screen_areas(size);
                if width < 80 {
                    assert_eq!(areas.list, areas.content);
                    assert_eq!(at(areas.graph), (0, 0, 0, 0));
                } else {
                    assert_eq!(at(areas.list), (x, y, 26, height - 2));
                    assert_eq!(at(areas.graph), (x + 26, y, width - 26, height - 2));
                }
            }
        }
    }
    for height in 0..3 {
        for width in [10, 100] {
            let size = Area {
                x: 1,
                y: 2,
                width,
                height,
            };
            let areas = list.screen_areas(size);
            for area in [areas.content, areas.message, areas.footer] {
                assert!(area.y >= 2 && area.y + area.height <= 2 + height);
                assert_eq!((area.x, area.width), (1, width));
            }
        }
    }
    let far = Area {
        x: 65400,
        y: 65500,
        width: 200,
        height: 100,
    };
    let areas = list.screen_areas(far);
    assert_eq!(at(areas.content), (65400, 65500, 200, 33));
    assert_eq!(at(areas.list), (65400, 65500, 26, 33));
    assert_eq!(at(areas.graph), (65426, 65500, 109, 33));
    assert_eq!(at(areas.footer), (65400, 65534, 200, 1));
}

#[test]
fn rows_and_columns_become_areas() {
    let list = workspace_app();
    let row = |y: u16, height: u16| Area {
        x: 0,
        y,
        width: 90,
        height,
    };
    let column = |x: u16, width: u16| Area {
        x,
        y: 0,
        width,
        height: 7,
    };
    let areas = list.arrange(
        row(0, 9),
        &vec![row(0, 7), row(7, 1), row(8, 1)],
        &vec![column(0, 26), column(26, 64)],
    );
    assert_eq!(areas.content, row(0, 7));
    assert_eq!(areas.message, row(7, 1));
    assert_eq!(areas.footer, row(8, 1));
    assert_eq!(areas.list, column(0, 26));
    assert_eq!(areas.graph, column(26, 64));
}

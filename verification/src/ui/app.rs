//! The interactive view: what it shows, what its keys do, and what it asks for. What it
//! asks for is kept until it is taken and carried out.

use crate::dict::Dict;
use crate::order::{contains, first_place, lemma_filter_step, views};
use crate::paths::{called_below, name_below};
use crate::stack::submit::{OptionsView, SubmitOptions};
use crate::text::{
    contains_text, copy_option, lower_text, lowercase, maybe, occurs, result_of, same, shorten,
    shortened, texts, Text,
};
use crate::ui::event::{
    Operation, OperationRequest, OperationResult, OperationResultView, OperationView,
    RequestView, UiEvent,
};
use crate::ui::keys::{
    help_after, help_transition, move_pick, picks, KeyCode, KeyEvent, TerminalEvent,
};
use crate::ui::model::{Graph, GraphView};
use crate::ui::moves::{carried, planned};
use crate::ui::preview::previewed;
use crate::ui::render::{commit_label, label_text, maybe_str};
use crate::ui::sound::{lemma_preview_sound, result_sound, sound};
use crate::ui::state::{
    fresh_state, no_search, redrawn, shown_order, state_received, state_well, Busy, RepositoryState,
    Search, SearchView, StateView,
};
use crate::ui::workspace::{Workspace, WorkspaceView};
use vstd::prelude::*;

verus! {

/// The part of the view that takes the keys.
#[derive(Clone, Copy, Debug, PartialEq, Eq, Structural)]
pub enum Pane {
    Repositories,
    Graph,
}

/// The interactive view.
pub struct App {
    /// What is kept of the active repository.
    pub state: RepositoryState,
    /// What is kept of the other repositories.
    pub cached: Dict<RepositoryState>,
    pub workspace: Workspace,
    /// The repository that is active.
    pub active: Option<String>,
    pub pane: Pane,
    pub repository_search: Search,
    pub repository_cursor: usize,
    pub repository_scroll: usize,
    pub next_request_id: u64,
    pub publish_options: SubmitOptions,
    /// The operations that are asked for, oldest first.
    pub requests: Vec<OperationRequest>,
    /// Whether the repositories are to be searched for again, and whether the active one is
    /// to be read again behind that.
    pub rescan: Option<bool>,
    pub quit: bool,
    pub help_open: bool,
    /// Whether the view is to be drawn again.
    pub dirty: bool,
}

/// What an `App` holds.
#[verifier::ext_equal]
pub struct AppView {
    pub state: StateView,
    pub cached: Map<Text, StateView>,
    pub workspace: WorkspaceView,
    pub active: Option<Text>,
    pub pane: Pane,
    pub repository_search: SearchView,
    pub repository_cursor: usize,
    pub repository_scroll: usize,
    pub next_request_id: u64,
    pub publish_options: OptionsView,
    pub requests: Seq<RequestView>,
    pub rescan: Option<bool>,
    pub quit: bool,
    pub help_open: bool,
    pub dirty: bool,
}

impl View for App {
    type V = AppView;

    open spec fn view(&self) -> AppView {
        AppView {
            state: self.state@,
            cached: self.cached@,
            workspace: self.workspace@,
            active: maybe(self.active),
            pane: self.pane,
            repository_search: self.repository_search@,
            repository_cursor: self.repository_cursor,
            repository_scroll: self.repository_scroll,
            next_request_id: self.next_request_id,
            publish_options: self.publish_options@,
            requests: views(self.requests@),
            rescan: self.rescan,
            quit: self.quit,
            help_open: self.help_open,
            dirty: self.dirty,
        }
    }
}

/// What holds of the view at all times: all that is kept of repositories can be drawn.
pub open spec fn app_well(a: AppView) -> bool {
    &&& state_well(a.state)
    &&& forall|k: Text| #[trigger] a.cached.contains_key(k) ==> state_well(a.cached[k])
}

/// Whether there is a number left for another operation.
pub open spec fn can_ask(a: AppView) -> bool {
    a.next_request_id < u64::MAX
}

/// With the message that an operation is still running.
pub open spec fn rejected(a: AppView) -> AppView {
    AppView {
        state: StateView {
            status: Some("another operation is already running"@),
            status_error: true,
            ..a.state
        },
        dirty: true,
        ..a
    }
}

/// A repository's state without a preview, and without what was to be confirmed.
pub open spec fn state_cleared(s: StateView, keep_carried: bool) -> StateView {
    StateView {
        discard_preview: true,
        preview: None,
        pending: None,
        publish_plan: None,
        carried: if keep_carried {
            s.carried
        } else {
            None
        },
        carried_commits: if keep_carried {
            s.carried_commits
        } else {
            Seq::empty()
        },
        ..s
    }
}

/// Without a preview, and without what was to be confirmed.
pub open spec fn preview_cleared(a: AppView, keep_carried: bool) -> AppView {
    let s = state_cleared(a.state, keep_carried);
    if a.state.preview is Some {
        AppView { state: redrawn(s), dirty: true, ..a }
    } else {
        AppView { state: s, ..a }
    }
}

/// Whether an operation can be asked for: none is running, and a repository is active.
pub open spec fn is_free(a: AppView) -> bool {
    a.state.busy is None && a.active is Some
}

/// With an operation asked for, where one can be.
pub open spec fn started(
    a: AppView,
    operation: OperationView,
    busy: Busy,
    status: Text,
) -> AppView {
    if a.state.busy is Some {
        rejected(a)
    } else if a.active is None {
        a
    } else {
        let id = (a.next_request_id + 1) as u64;
        AppView {
            next_request_id: id,
            requests: a.requests.push(RequestView { options: a.publish_options, id, operation }),
            state: StateView {
                request_id: id,
                discard_preview: false,
                busy: Some(busy),
                status: Some(status),
                status_error: false,
                ..a.state
            },
            dirty: true,
            ..a
        }
    }
}

/// Behind an operation that was asked for and could not be handed on.
pub open spec fn unsent(a: AppView, request: RequestView) -> AppView {
    if request.id != a.state.request_id {
        a
    } else {
        AppView {
            state: StateView {
                busy: None,
                status: Some("operation worker is unavailable"@),
                status_error: true,
                pending: match request.operation {
                    OperationView::Apply(plan) => Some(plan),
                    _ => a.state.pending,
                },
                ..a.state
            },
            dirty: true,
            ..a
        }
    }
}

/// Whether a commit's label holds what is searched for, in whatever case.
pub open spec fn matching(graph: GraphView, needle: Text) -> spec_fn(Text) -> bool {
    |id: Text|
        graph.commits.contains_key(id) && occurs(
            lower_text(label_text(graph.commits[id], graph.branch)),
            needle,
        )
}

/// The commits that match what is searched for, in order.
pub open spec fn search_matches(s: StateView) -> Seq<Text> {
    match s.graph {
        Some(graph) => graph.order.filter(matching(graph, lower_text(s.search.query))),
        None => Seq::empty(),
    }
}

/// With the matches of the search brought up to date.
pub open spec fn searched(s: StateView) -> StateView {
    StateView { search: SearchView { matches: search_matches(s), ..s.search }, ..s }
}

/// Whether a repository is offered: its name holds the query, or its path does where the
/// query has a slash.
pub open spec fn offered(root: Text, query: Text) -> spec_fn(Text) -> bool {
    |path: Text|
        occurs(lower_text(called_below(path, root)), query) || query.contains('/') && occurs(
            lower_text(path),
            query,
        )
}

/// The repositories that are offered.
pub open spec fn filtered(a: AppView) -> Seq<Text> {
    a.workspace.repositories.filter(
        offered(a.workspace.root, lower_text(a.repository_search.query)),
    )
}

/// Whether the list of repositories is shown.
pub open spec fn has_list(a: AppView) -> bool {
    a.active is None || a.workspace.repositories.len() != 1 || a.workspace.initial is None
}

/// A place so far from another, within a list that is not empty.
pub open spec fn clamped(place: int, count: int) -> int {
    if place < 0 {
        0
    } else if place >= count {
        count - 1
    } else {
        place
    }
}

/// With the cursor moved in the list of repositories.
pub open spec fn repository_cursor_moved(a: AppView, amount: int) -> AppView {
    let count = filtered(a).len() as int;
    AppView {
        repository_cursor: if count == 0 {
            0
        } else {
            clamped(a.repository_cursor + amount, count) as usize
        },
        ..a
    }
}

/// The repository at the cursor.
pub open spec fn highlighted(a: AppView) -> Option<Text> {
    if a.repository_cursor < filtered(a).len() {
        Some(filtered(a)[a.repository_cursor as int])
    } else {
        None
    }
}

/// The place of a text that may be there, or the first place.
pub open spec fn place_or_first(v: Seq<Text>, wanted: Option<Text>) -> usize {
    match wanted {
        Some(wanted) => match v.index_of_first(wanted) {
            Some(i) => i as usize,
            None => 0,
        },
        None => 0,
    }
}

/// With another repository active. Its state is what was kept of it; that of the one
/// before is kept, without a preview.
pub open spec fn switched(a: AppView, root: Text) -> AppView {
    let b = preview_cleared(a, false);
    let cached = match b.active {
        Some(previous) => b.cached.insert(previous, b.state),
        None => b.cached,
    };
    let kept = if cached.contains_key(root) {
        cached[root]
    } else {
        fresh_state()
    };
    AppView {
        state: searched(
            if kept.render_dirty {
                redrawn(kept)
            } else {
                kept
            },
        ),
        cached: cached.remove(root),
        publish_options: OptionsView { repo: root, ..b.publish_options },
        active: Some(root),
        dirty: true,
        ..b
    }
}

/// With a repository activated, and its graph asked for where it is not known. While a
/// repository is being changed, no other can be activated.
pub open spec fn activated(a: AppView, root: Text) -> AppView {
    if a.state.busy == Some(Busy::Mutation) {
        rejected(a)
    } else {
        let b = if a.active != Some(root) {
            switched(a, root)
        } else {
            a
        };
        let c = if b.state.graph is None && b.state.busy is None {
            started(b, OperationView::Load, Busy::Load, "loading graph…"@)
        } else {
            b
        };
        AppView { dirty: true, ..c }
    }
}

/// With the repositories to be searched for again.
pub open spec fn rescan_asked(a: AppView, refresh: bool) -> AppView {
    if a.state.busy == Some(Busy::Mutation) {
        rejected(a)
    } else {
        AppView { rescan: Some(refresh), ..a }
    }
}

/// With the repositories that were found. What is kept of others is dropped, and the active
/// one is left where it is not among them.
pub open spec fn repositories_replaced(a: AppView, repositories: Seq<Text>) -> AppView {
    let gone = a.active is Some && !repositories.contains(a.active->0);
    let b = AppView {
        workspace: WorkspaceView { repositories, ..a.workspace },
        cached: a.cached.restrict(repositories.to_set()),
        active: if gone {
            None
        } else {
            a.active
        },
        state: if gone {
            fresh_state()
        } else {
            a.state
        },
        pane: if gone {
            Pane::Repositories
        } else {
            a.pane
        },
        rescan: None,
        dirty: true,
        ..a
    };
    AppView {
        repository_cursor: place_or_first(filtered(b), highlighted(a)),
        pane: if !has_list(b) && b.active is Some {
            Pane::Graph
        } else {
            b.pane
        },
        ..b
    }
}

/// With the graph and the pull requests asked for again.
pub open spec fn refreshed(a: AppView) -> AppView {
    let b = if a.state.busy is Some {
        a
    } else {
        preview_cleared(a, false)
    };
    started(b, OperationView::Refresh, Busy::Load, "refreshing…"@)
}

/// Behind a search for the repositories.
pub open spec fn rescanned(a: AppView, found: Result<WorkspaceView, Text>) -> AppView {
    match found {
        Ok(workspace) => {
            let b = repositories_replaced(a, workspace.repositories);
            if a.rescan == Some(true) && b.active is Some {
                refreshed(b)
            } else {
                b
            }
        },
        Err(error) => AppView {
            state: StateView { status: Some(error), status_error: true, ..a.state },
            rescan: None,
            dirty: true,
            ..a
        },
    }
}

/// With the search for repositories changed.
pub open spec fn with_repository_search(a: AppView, editing: bool, query: Text) -> AppView {
    AppView {
        repository_search: SearchView { editing, query, ..a.repository_search },
        repository_cursor: 0,
        ..a
    }
}

/// What a key makes of the search for repositories while it is being typed.
pub open spec fn repository_query_key(a: AppView, key: KeyEvent) -> (AppView, bool) {
    match key.code {
        KeyCode::Esc | KeyCode::Enter => (
            AppView {
                repository_search: SearchView { editing: false, ..a.repository_search },
                ..a
            },
            true,
        ),
        KeyCode::Up => (repository_cursor_moved(a, -1), true),
        KeyCode::Down => (repository_cursor_moved(a, 1), true),
        KeyCode::Backspace => (
            with_repository_search(a, true, shortened(a.repository_search.query)),
            true,
        ),
        KeyCode::Char(c) => if key.control {
            (a, false)
        } else {
            (with_repository_search(a, true, a.repository_search.query.push(c)), true)
        },
        _ => (a, false),
    }
}

/// What a key makes of the list of repositories.
pub open spec fn repository_list_key(a: AppView, code: KeyCode) -> (AppView, bool) {
    match code {
        KeyCode::Up | KeyCode::Char('k') => (repository_cursor_moved(a, -1), true),
        KeyCode::Down | KeyCode::Char('j') => (repository_cursor_moved(a, 1), true),
        KeyCode::Char('/') => (with_repository_search(a, true, Seq::empty()), true),
        KeyCode::Esc => (
            AppView {
                repository_search: SearchView { query: Seq::empty(), ..a.repository_search },
                repository_cursor: place_or_first(a.workspace.repositories, highlighted(a)),
                ..a
            },
            true,
        ),
        KeyCode::Enter => (
            match highlighted(a) {
                Some(root) => activated(a, root),
                None => a,
            },
            true,
        ),
        KeyCode::Char('r') => (rescan_asked(a, false), true),
        _ => (a, false),
    }
}

/// What a key makes of the list of repositories or of the search in it.
pub open spec fn repository_key(a: AppView, key: KeyEvent) -> (AppView, bool) {
    if a.repository_search.editing {
        repository_query_key(a, key)
    } else {
        repository_list_key(a, key.code)
    }
}

/// With the cursor moved in the graph. Moving it cancels the preview of a move, not that of
/// a publication.
pub open spec fn cursor_moved(a: AppView, amount: int) -> AppView {
    let b = if a.state.publish_plan is Some {
        a
    } else {
        preview_cleared(a, true)
    };
    let ids = shown_order(b.state);
    if ids.len() == 0 {
        b
    } else {
        let current = place_or_first(ids, b.state.selected);
        AppView {
            state: StateView {
                selected: Some(ids[clamped(current + amount, ids.len() as int)]),
                ..b.state
            },
            ..b
        }
    }
}

/// With commits picked up to be moved.
pub open spec fn taken_up(
    a: AppView,
    selected: Text,
    commits: Seq<Text>,
    substack: bool,
) -> AppView {
    let b = preview_cleared(a, false);
    AppView {
        state: StateView {
            carried: Some(selected),
            carried_commits: commits,
            carry_substack: substack,
            status: None,
            status_error: false,
            ..b.state
        },
        ..b
    }
}

/// With an error to be told.
pub open spec fn failed(a: AppView, error: Text) -> AppView {
    AppView { state: StateView { status: Some(error), status_error: true, ..a.state }, ..a }
}

/// With the selected commit picked up, alone or with the commits above it.
pub open spec fn picked(a: AppView, substack: bool) -> AppView {
    match a.state.selected {
        None => a,
        Some(selected) => if !substack {
            taken_up(a, selected, seq![selected], false)
        } else {
            match a.state.graph {
                None => a,
                Some(graph) => match carried(graph, selected) {
                    Ok(commits) => taken_up(a, selected, commits, true),
                    Err(error) => failed(preview_cleared(a, false), error),
                },
            }
        },
    }
}

/// The branch to check out with a commit, where just one is at it.
pub open spec fn branch_at(graph: GraphView, commit: Text) -> Option<Text> {
    if graph.commits.contains_key(commit) && graph.commits[commit].local_refs.len() == 1 {
        Some(graph.commits[commit].local_refs[0])
    } else {
        None
    }
}

/// With the move that waits to be confirmed asked for.
pub open spec fn applied(a: AppView) -> AppView {
    match a.state.pending {
        None => a,
        Some(plan) => {
            let b = started(a, OperationView::Apply(plan), Busy::Mutation, "applying…"@);
            if is_free(a) {
                AppView { state: StateView { pending: None, ..b.state }, ..b }
            } else {
                b
            }
        },
    }
}

/// With the publication that waits to be confirmed asked for.
pub open spec fn publish_executed(a: AppView) -> AppView {
    match a.state.publish_plan {
        None => failed(a, "press p or u to preview publish changes first"@),
        Some(plan) => started(
            a,
            OperationView::PublishExecute(plan),
            Busy::Mutation,
            "publishing and linking…"@,
        ),
    }
}

/// With what is picked up shown where it would be moved to.
pub open spec fn dropped(a: AppView, source: Text, destination: Text) -> AppView {
    match a.state.graph {
        None => a,
        Some(graph) => match planned(graph, source, destination, a.state.carry_substack) {
            Err(error) => failed(a, error),
            Ok(plan) => match previewed(graph, plan) {
                Err(error) => failed(a, error),
                Ok(preview) => AppView {
                    state: StateView {
                        status: None,
                        status_error: false,
                        ..redrawn(
                            StateView { pending: Some(plan), preview: Some(preview), ..a.state },
                        )
                    },
                    dirty: true,
                    ..a
                },
            },
        },
    }
}

/// With what waits confirmed, or what is picked up dropped, or the selected commit checked
/// out.
pub open spec fn entered(a: AppView) -> AppView {
    if a.state.pending is Some {
        applied(a)
    } else if a.state.publish_plan is Some {
        publish_executed(a)
    } else {
        match a.state.selected {
            None => a,
            Some(selected) => match a.state.carried {
                Some(source) => dropped(a, source, selected),
                None => started(
                    a,
                    OperationView::Checkout {
                        revision: selected,
                        branch: match a.state.graph {
                            Some(graph) => branch_at(graph, selected),
                            None => None,
                        },
                    },
                    Busy::Mutation,
                    "checking out…"@,
                ),
            },
        }
    }
}

/// With a publication to a remote to be planned.
pub open spec fn publish_previewed(a: AppView, remote: Text) -> AppView {
    let b = if a.state.busy is Some {
        a
    } else {
        preview_cleared(a, false)
    };
    started(
        b,
        OperationView::PublishPreview(OptionsView { remote, ..a.publish_options }),
        Busy::Load,
        "planning publish…"@,
    )
}

/// The place of the match behind or before the one that is selected, round and round.
pub open spec fn match_place(current: Option<int>, backwards: bool, count: int) -> int {
    match current {
        Some(i) => if backwards {
            if i == 0 {
                count - 1
            } else {
                i - 1
            }
        } else if i + 1 < count {
            i + 1
        } else {
            0
        },
        None => if backwards {
            count - 1
        } else {
            0
        },
    }
}

/// The place of what is selected among texts.
pub open spec fn selected_place(selected: Option<Text>, v: Seq<Text>) -> Option<int> {
    match selected {
        Some(id) => v.index_of_first(id),
        None => None,
    }
}

/// With the next match selected, or the one before.
pub open spec fn next_matched(a: AppView, backwards: bool) -> AppView {
    let matches = a.state.search.matches;
    if matches.len() == 0 {
        a
    } else {
        let place = match_place(
            selected_place(a.state.selected, matches),
            backwards,
            matches.len() as int,
        );
        AppView { state: StateView { selected: Some(matches[place]), ..a.state }, ..a }
    }
}

/// With the search in the graph for something else.
pub open spec fn search_for(a: AppView, query: Text) -> AppView {
    AppView {
        state: searched(
            StateView { search: SearchView { query, ..a.state.search }, ..a.state },
        ),
        ..a
    }
}

/// With the search in the graph being typed or not.
pub open spec fn search_editing(a: AppView, editing: bool) -> AppView {
    AppView {
        state: StateView { search: SearchView { editing, ..a.state.search }, ..a.state },
        ..a
    }
}

/// What a key makes of the search in the graph while it is being typed.
pub open spec fn search_key(a: AppView, key: KeyEvent) -> (AppView, bool) {
    match key.code {
        KeyCode::Esc => (search_editing(a, false), true),
        KeyCode::Enter => {
            let b = search_editing(a, false);
            (next_matched(AppView { state: searched(b.state), ..b }, false), true)
        },
        KeyCode::Up => (next_matched(a, true), true),
        KeyCode::Down => (next_matched(a, false), true),
        KeyCode::Backspace => (search_for(a, shortened(a.state.search.query)), true),
        KeyCode::Char(c) => if key.control {
            (a, false)
        } else {
            (search_for(a, a.state.search.query.push(c)), true)
        },
        _ => (a, false),
    }
}

/// With a new search in the graph.
pub open spec fn search_begun(a: AppView) -> AppView {
    let b = preview_cleared(a, true);
    AppView {
        state: StateView {
            search: SearchView { editing: true, query: Seq::empty(), matches: Seq::empty() },
            ..b.state
        },
        ..b
    }
}

/// Whether a key waits for an operation to end.
pub open spec fn waits(code: KeyCode) -> bool {
    ||| code == KeyCode::Enter
    ||| code == KeyCode::Char('m')
    ||| code == KeyCode::Char('M')
    ||| code == KeyCode::Char('p')
    ||| code == KeyCode::Char('r')
    ||| code == KeyCode::Char('u')
    ||| code == KeyCode::Char('q')
}

/// What a key makes of the graph of the active repository.
pub open spec fn graph_key(a: AppView, key: KeyEvent) -> (AppView, bool) {
    if a.state.busy is Some && waits(key.code) {
        (rejected(a), true)
    } else if picks(key.code) is Some {
        (picked(a, picks(key.code)->0), true)
    } else {
        match key.code {
            KeyCode::Up | KeyCode::Char('k') => (cursor_moved(a, -1), true),
            KeyCode::Down | KeyCode::Char('j') => (cursor_moved(a, 1), true),
            KeyCode::Enter => (entered(a), true),
            KeyCode::Char('p') => (publish_previewed(a, a.publish_options.remote), true),
            KeyCode::Char('u') => (publish_previewed(a, "upstream"@), true),
            KeyCode::Esc => (preview_cleared(a, false), true),
            KeyCode::Char('/') => (search_begun(a), true),
            KeyCode::Char('n') => (next_matched(a, key.shift), true),
            KeyCode::Char('N') => (next_matched(a, true), true),
            KeyCode::Char('r') => (rescan_asked(a, true), true),
            KeyCode::Char('q') => (AppView { quit: true, ..a }, true),
            _ => (a, false),
        }
    }
}

/// The other pane.
pub open spec fn other_pane(pane: Pane) -> Pane {
    match pane {
        Pane::Repositories => Pane::Graph,
        Pane::Graph => Pane::Repositories,
    }
}

/// What a key does, and whether it does anything.
pub open spec fn key_handled(a: AppView, key: KeyEvent) -> (AppView, bool) {
    if a.help_open {
        (AppView { help_open: help_after(true, key.code)->0, ..a }, true)
    } else if key.code == KeyCode::Tab || key.code == KeyCode::BackTab {
        (
            AppView {
                pane: if has_list(a) {
                    other_pane(a.pane)
                } else {
                    a.pane
                },
                ..a
            },
            true,
        )
    } else if a.pane == Pane::Repositories && a.repository_search.editing {
        repository_key(a, key)
    } else if a.pane == Pane::Graph && a.state.search.editing {
        search_key(a, key)
    } else if key.code == KeyCode::Char('?') {
        (AppView { help_open: true, ..a }, true)
    } else if a.pane == Pane::Repositories {
        if key.code == KeyCode::Char('q') {
            (
                if a.state.busy == Some(Busy::Mutation) {
                    rejected(a)
                } else {
                    AppView { quit: true, ..a }
                },
                true,
            )
        } else {
            repository_key(a, key)
        }
    } else if a.active is None {
        match key.code {
            KeyCode::Char('q') => (AppView { quit: true, ..a }, true),
            KeyCode::Char('r') => (rescan_asked(a, false), true),
            _ => (a, false),
        }
    } else {
        graph_key(a, key)
    }
}

/// With what came of an operation on some repository. One that is not active takes it in
/// without being drawn.
pub open spec fn app_received(a: AppView, response: OperationResultView) -> AppView {
    if a.active == Some(response.repo) {
        AppView {
            state: searched(state_received(a.state, response, true)),
            dirty: true,
            ..a
        }
    } else if a.cached.contains_key(response.repo) {
        AppView {
            cached: a.cached.insert(
                response.repo,
                state_received(a.cached[response.repo], response, false),
            ),
            ..a
        }
    } else {
        a
    }
}

/// The view as it begins.
pub open spec fn begun(options: OptionsView, workspace: WorkspaceView) -> AppView {
    let a = AppView {
        state: fresh_state(),
        cached: Map::empty(),
        workspace,
        active: None,
        pane: if workspace.initial is Some {
            Pane::Graph
        } else {
            Pane::Repositories
        },
        repository_search: no_search(),
        repository_cursor: place_or_first(workspace.repositories, workspace.initial),
        repository_scroll: 0,
        next_request_id: 0,
        publish_options: options,
        requests: Seq::empty(),
        rescan: None,
        quit: false,
        help_open: false,
        dirty: true,
    };
    match workspace.initial {
        Some(root) => activated(a, root),
        None => a,
    }
}

/// Whether the preview stays while the cursor moves: that of a publication does.
pub fn preserve_preview_while_navigating(publish_active: bool) -> (r: bool)
    ensures
        r == publish_active,
{
    publish_active
}

/// The branch to check out with a commit, where just one is at it.
pub fn checkout_branch(graph: &Graph, commit: &str) -> (r: Option<String>)
    ensures
        maybe(r) == branch_at(graph@, commit@),
{
    match graph.commits.get(commit) {
        None => None,
        Some(found) => {
            assert(graph@.commits[commit@] == found@);
            assert(texts(found.local_refs@).len() == found.local_refs.len());
            if found.local_refs.len() == 1 {
                assert(texts(found.local_refs@)[0] == found.local_refs@[0]@);
                Some(found.local_refs[0].clone())
            } else {
                None
            }
        },
    }
}

/// A place so far from another, within a list that is not empty.
fn step_place(place: usize, amount: isize, count: usize) -> (r: usize)
    requires
        count > 0,
    ensures
        r == clamped(place + amount, count as int),
        r < count,
{
    let sum: i128 = place as i128 + amount as i128;
    if sum < 0 {
        0
    } else if sum >= count as i128 {
        count - 1
    } else {
        sum as usize
    }
}

/// Computes `place_or_first`.
fn place_in(v: &Vec<String>, wanted: &Option<String>) -> (r: usize)
    ensures
        r == place_or_first(texts(v@), maybe(*wanted)),
        v.len() > 0 ==> r < v.len(),
{
    match wanted {
        Some(wanted) => match first_place(v, wanted.as_str()) {
            Some(i) => i,
            None => 0,
        },
        None => 0,
    }
}

/// A text in an option, if there is one.
fn as_text(s: &Option<String>) -> (r: Option<&str>)
    ensures
        maybe_str(r) == maybe(*s),
{
    match s {
        Some(s) => Some(s.as_str()),
        None => None,
    }
}

/// The commits of a graph whose labels hold a text, in order.
fn matches_in(graph: &Graph, needle: &str) -> (r: Vec<String>)
    requires
        sound(graph@),
    ensures
        texts(r@) == graph@.order.filter(matching(graph@, needle@)),
{
    let ghost g = graph@;
    let ghost keeps = matching(g, needle@);
    let mut r: Vec<String> = Vec::new();
    let mut i: usize = 0;
    assert(g.order.take(0) =~= Seq::<Text>::empty());
    assert(texts(r@) =~= g.order.take(0).filter(keeps)) by {
        reveal(Seq::filter);
    }
    while i < graph.order.len()
        invariant
            i <= graph.order.len(),
            g == graph@,
            sound(g),
            keeps == matching(g, needle@),
            texts(r@) == g.order.take(i as int).filter(keeps),
        decreases graph.order.len() - i,
    {
        let id = graph.order[i].as_str();
        proof {
            lemma_filter_step(g.order, i as int, keeps);
        }
        assert(g.order[i as int] == id@);
        match graph.commits.get(id) {
            None => {},
            Some(commit) => {
                assert(g.commits.contains_key(id@) && g.commits[id@] == commit@);
                let label = commit_label(commit, as_text(&graph.branch));
                if contains_text(lowercase(label.as_str()).as_str(), needle) {
                    let ghost was = texts(r@);
                    r.push(id.to_owned());
                    assert(texts(r@) =~= was.push(id@));
                }
            },
        }
        i = i + 1;
    }
    assert(g.order.take(g.order.len() as int) =~= g.order);
    r
}

/// Whether a text holds a slash.
fn has_slash(s: &str) -> (r: bool)
    ensures
        r == s@.contains('/'),
{
    for c in it: s.chars()
        invariant
            it.seq() == s@,
            forall|j: int| 0 <= j < it.index() ==> #[trigger] s@[j] != '/',
    {
        if c == '/' {
            assert(s@[it.index() as int] == '/');
            return true;
        }
    }
    false
}

impl App {
    /// The view as it begins, with the repositories that were found.
    pub fn new(publish_options: SubmitOptions, found: Result<Workspace, String>) -> (r: Result<
        Self,
        String,
    >)
        ensures
            match (r, found) {
                (Ok(app), Ok(workspace)) => app@ == begun(publish_options@, workspace@)
                    && app_well(app@),
                (Err(error), Err(reason)) => error@ == reason@,
                _ => false,
            },
    {
        match found {
            Ok(workspace) => Ok(Self::with_workspace(publish_options, workspace)),
            Err(error) => Err(error),
        }
    }

    /// The view as it begins, in a workspace.
    pub fn with_workspace(publish_options: SubmitOptions, workspace: Workspace) -> (r: Self)
        ensures
            r@ == begun(publish_options@, workspace@),
            app_well(r@),
    {
        let initial = copy_option(&workspace.initial);
        let pane = if initial.is_some() {
            Pane::Graph
        } else {
            Pane::Repositories
        };
        let repository_cursor = place_in(&workspace.repositories, &initial);
        let mut app = App {
            state: RepositoryState::default(),
            cached: Dict::new(),
            workspace,
            active: None,
            pane,
            repository_search: Search::default(),
            repository_cursor,
            repository_scroll: 0,
            next_request_id: 0,
            publish_options,
            requests: Vec::new(),
            rescan: None,
            quit: false,
            help_open: false,
            dirty: true,
        };
        assert(app.cached@ =~= Map::<Text, StateView>::empty());
        assert(views(app.requests@) =~= Seq::<RequestView>::empty());
        match initial {
            Some(root) => {
                app.activate(root);
            },
            None => {},
        }
        app
    }

    /// Whether the list of repositories is shown.
    pub fn has_sidebar(&self) -> (r: bool)
        ensures
            r == has_list(self@),
    {
        assert(self@.workspace.repositories.len() == self.workspace.repositories.len());
        self.active.is_none() || self.workspace.repositories.len() != 1
            || self.workspace.initial.is_none()
    }

    /// The repositories that are offered.
    pub fn filtered_repositories(&self) -> (r: Vec<String>)
        ensures
            texts(r@) == filtered(self@),
    {
        let query = lowercase(self.repository_search.query.as_str());
        let slash = has_slash(query.as_str());
        let root = self.workspace.root.as_str();
        let ghost all = self@.workspace.repositories;
        let ghost keeps = offered(root@, query@);
        let mut r: Vec<String> = Vec::new();
        let mut i: usize = 0;
        assert(all.take(0) =~= Seq::<Text>::empty());
        assert(texts(r@) =~= all.take(0).filter(keeps)) by {
            reveal(Seq::filter);
        }
        while i < self.workspace.repositories.len()
            invariant
                i <= self.workspace.repositories.len(),
                all == texts(self.workspace.repositories@),
                slash == query@.contains('/'),
                keeps == offered(root@, query@),
                texts(r@) == all.take(i as int).filter(keeps),
            decreases self.workspace.repositories.len() - i,
        {
            let path = self.workspace.repositories[i].as_str();
            proof {
                lemma_filter_step(all, i as int, keeps);
            }
            assert(all[i as int] == path@);
            let name = lowercase(name_below(path, root).as_str());
            if contains_text(name.as_str(), query.as_str()) || (slash && contains_text(
                lowercase(path).as_str(),
                query.as_str(),
            )) {
                let ghost was = texts(r@);
                r.push(path.to_owned());
                assert(texts(r@) =~= was.push(path@));
            }
            i = i + 1;
        }
        assert(all.take(all.len() as int) =~= all);
        r
    }

    /// Moves the cursor in the list of repositories.
    pub fn move_repository_cursor(&mut self, amount: isize)
        ensures
            final(self)@ == repository_cursor_moved(old(self)@, amount as int),
    {
        let repositories = self.filtered_repositories();
        assert(texts(repositories@).len() == repositories.len());
        let count = repositories.len();
        self.repository_cursor =
        if count == 0 {
            0
        } else {
            step_place(self.repository_cursor, amount, count)
        };
    }

    /// The repository at the cursor.
    pub fn highlighted_repository(&self) -> (r: Option<String>)
        ensures
            maybe(r) == highlighted(self@),
    {
        let repositories = self.filtered_repositories();
        assert(texts(repositories@).len() == repositories.len());
        if self.repository_cursor < repositories.len() {
            assert(texts(repositories@)[self.repository_cursor as int]
                == repositories@[self.repository_cursor as int]@);
            Some(repositories[self.repository_cursor].clone())
        } else {
            None
        }
    }

    fn is_mutating(&self) -> (r: bool)
        ensures
            r == (self@.state.busy == Some(Busy::Mutation)),
    {
        match self.state.busy {
            Some(Busy::Mutation) => true,
            _ => false,
        }
    }

    /// Tells that an operation is still running.
    pub fn reject_busy_operation(&mut self)
        ensures
            final(self)@ == rejected(old(self)@),
    {
        self.state.status = Some("another operation is already running".to_owned());
        self.state.status_error = true;
        self.dirty = true;
    }

    /// Draws the graph that is shown anew.
    pub fn update_rendered(&mut self)
        requires
            app_well(old(self)@),
        ensures
            final(self)@ == (AppView { state: redrawn(old(self)@.state), dirty: true, ..old(self)@ }),
            app_well(final(self)@),
    {
        self.state.update_rendered();
        self.dirty = true;
    }

    /// Cancels a preview, and what was to be confirmed.
    pub fn clear_preview(&mut self, keep_carried: bool)
        requires
            app_well(old(self)@),
        ensures
            final(self)@ == preview_cleared(old(self)@, keep_carried),
            app_well(final(self)@),
    {
        let had_preview = self.state.preview.is_some();
        self.state.discard_preview = true;
        self.state.preview = None;
        self.state.pending = None;
        self.state.publish_plan = None;
        if !keep_carried {
            self.state.carried = None;
            self.state.carried_commits = Vec::new();
            assert(texts(self.state.carried_commits@) =~= Seq::<Text>::empty());
        }
        assert(self@.state =~= state_cleared(old(self)@.state, keep_carried));
        if had_preview {
            self.update_rendered();
        }
    }

    /// Asks for an operation, where none is running and a repository is active, and tells
    /// whether it did.
    pub fn start_operation(&mut self, operation: Operation, busy: Busy, status: &str) -> (r: bool)
        requires
            app_well(old(self)@),
            can_ask(old(self)@),
        ensures
            final(self)@ == started(old(self)@, operation@, busy, status@),
            app_well(final(self)@),
            r == is_free(old(self)@),
    {
        if self.state.busy.is_some() {
            self.reject_busy_operation();
            return false;
        }
        if self.active.is_none() {
            return false;
        }
        let ghost was = views(self.requests@);
        self.next_request_id = self.next_request_id + 1;
        self.state.request_id = self.next_request_id;
        self.state.discard_preview = false;
        let request = OperationRequest {
            options: self.publish_options.clone(),
            id: self.state.request_id,
            operation,
        };
        let ghost view = request@;
        self.requests.push(request);
        assert(views(self.requests@) =~= was.push(view));
        self.state.busy = Some(busy);
        self.state.status = Some(status.to_owned());
        self.state.status_error = false;
        self.dirty = true;
        true
    }

    /// The operation that was asked for first, which is then no longer kept.
    pub fn take_request(&mut self) -> (r: Option<OperationRequest>)
        ensures
            match r {
                Some(request) => {
                    &&& old(self)@.requests.len() > 0
                    &&& request@ == old(self)@.requests[0]
                    &&& final(self)@ == (AppView {
                        requests: old(self)@.requests.skip(1),
                        ..old(self)@
                    })
                },
                None => old(self)@.requests.len() == 0 && final(self)@ == old(self)@,
            },
    {
        let ghost was = views(self.requests@);
        assert(was.len() == self.requests.len());
        if self.requests.len() == 0 {
            None
        } else {
            let request = self.requests.remove(0);
            assert(views(self.requests@) =~= was.skip(1));
            Some(request)
        }
    }

    /// Takes back an operation that could not be handed on.
    pub fn send_failed(&mut self, request: OperationRequest)
        ensures
            final(self)@ == unsent(old(self)@, request@),
            app_well(old(self)@) ==> app_well(final(self)@),
    {
        if request.id != self.state.request_id {
            return ;
        }
        self.state.busy = None;
        self.state.status = Some("operation worker is unavailable".to_owned());
        self.state.status_error = true;
        match request.operation {
            Operation::Apply(plan) => {
                self.state.pending = Some(plan);
            },
            _ => {},
        }
        self.dirty = true;
    }

    /// Brings the matches of the search in the graph up to date.
    pub fn update_search(&mut self)
        requires
            app_well(old(self)@),
        ensures
            final(self)@ == (AppView { state: searched(old(self)@.state), ..old(self)@ }),
            app_well(final(self)@),
    {
        let needle = lowercase(self.state.search.query.as_str());
        let matches = match &self.state.graph {
            Some(graph) => matches_in(graph, needle.as_str()),
            None => {
                let none: Vec<String> = Vec::new();
                assert(texts(none@) =~= Seq::<Text>::empty());
                none
            },
        };
        self.state.search.matches = matches;
        assert(self@.state =~= searched(old(self)@.state));
    }

    /// Makes another repository active.
    fn switch_to(&mut self, root: String)
        requires
            app_well(old(self)@),
        ensures
            final(self)@ == switched(old(self)@, root@),
            app_well(final(self)@),
    {
        let ghost a = self@;
        self.clear_preview(false);
        let ghost b = self@;
        let mut state = RepositoryState::default();
        std::mem::swap(&mut state, &mut self.state);
        let mut previous: Option<String> = None;
        std::mem::swap(&mut previous, &mut self.active);
        let ghost before = self.cached@;
        match previous {
            Some(path) => {
                self.cached.insert(path, state);
                assert(self.cached@ =~= before.insert(b.active->0, b.state));
            },
            None => {},
        }
        let ghost cached = self.cached@;
        let ghost raw = self.cached.raw();
        let kept = self.cached.remove(root.as_str());
        assert(self.cached@ =~= cached.remove(root@));
        self.state = match kept {
            Some(kept) => kept,
            None => RepositoryState::default(),
        };
        self.publish_options.repo = root.clone();
        self.active = Some(root);
        self.dirty = true;
        proof {
            assert(state_well(self.state@)) by {
                if cached.contains_key(root@) {
                    assert(state_well(cached[root@]));
                }
            }
            assert forall|k: Text| #[trigger] self@.cached.contains_key(k) implies state_well(
                self@.cached[k],
            ) by {
                assert(cached.contains_key(k));
            }
        }
        if self.state.render_dirty {
            self.update_rendered();
        }
        self.update_search();
        assert(self@ =~= switched(a, root@));
    }

    /// Makes a repository active, and asks for its graph where it is not known.
    pub fn activate(&mut self, root: String)
        requires
            app_well(old(self)@),
            can_ask(old(self)@),
        ensures
            final(self)@ == activated(old(self)@, root@),
            app_well(final(self)@),
    {
        if self.is_mutating() {
            self.reject_busy_operation();
            return ;
        }
        let is_active = match &self.active {
            Some(path) => same(path.as_str(), root.as_str()),
            None => false,
        };
        if !is_active {
            self.switch_to(root);
        }
        if self.state.graph.is_none() && self.state.busy.is_none() {
            let _ = self.start_operation(Operation::Load, Busy::Load, "loading graph…");
        }
        self.dirty = true;
    }

    /// Asks for a search for the repositories, and whether to read the active one again.
    pub fn ask_rescan(&mut self, refresh: bool)
        ensures
            final(self)@ == rescan_asked(old(self)@, refresh),
            app_well(old(self)@) ==> app_well(final(self)@),
    {
        if self.is_mutating() {
            self.reject_busy_operation();
        } else {
            self.rescan = Some(refresh);
        }
    }

    /// Takes the repositories that were found.
    fn replace_repositories(&mut self, repositories: Vec<String>)
        requires
            app_well(old(self)@),
        ensures
            final(self)@ == repositories_replaced(old(self)@, texts(repositories@)),
            app_well(final(self)@),
            final(self)@.next_request_id == old(self)@.next_request_id,
    {
        let ghost a = self@;
        let ghost repos = texts(repositories@);
        let root = self.highlighted_repository();
        self.workspace.repositories = repositories;
        let ghost before = self.cached@;
        let ghost raw = self.cached.raw();
        self.cached.keep(&self.workspace.repositories);
        assert(self.cached@ =~= before.restrict(repos.to_set()));
        let gone = match &self.active {
            Some(path) => !contains(&self.workspace.repositories, path.as_str()),
            None => false,
        };
        if gone {
            self.active = None;
            self.state = RepositoryState::default();
            self.pane = Pane::Repositories;
        }
        self.rescan = None;
        self.dirty = true;
        let ghost b = self@;
        let offered = self.filtered_repositories();
        self.repository_cursor = place_in(&offered, &root);
        if !self.has_sidebar() && self.active.is_some() {
            self.pane = Pane::Graph;
        }
        proof {
            assert forall|k: Text| #[trigger] self@.cached.contains_key(k) implies state_well(
                self@.cached[k],
            ) by {
                assert(a.cached.contains_key(k));
            }
            assert(self@ =~= repositories_replaced(a, repos));
        }
    }

    /// Takes what came of a search for the repositories.
    pub fn rescanned(&mut self, found: Result<Workspace, String>)
        requires
            app_well(old(self)@),
            can_ask(old(self)@),
        ensures
            final(self)@ == rescanned(old(self)@, result_of(found)),
            app_well(final(self)@),
    {
        let refresh = match self.rescan {
            Some(refresh) => refresh,
            None => false,
        };
        match found {
            Ok(workspace) => {
                self.replace_repositories(workspace.repositories);
                if refresh && self.active.is_some() {
                    self.refresh();
                }
            },
            Err(error) => {
                self.state.status = Some(error);
                self.state.status_error = true;
                self.rescan = None;
                self.dirty = true;
            },
        }
    }

    /// Asks for the graph and the pull requests again.
    pub fn refresh(&mut self)
        requires
            app_well(old(self)@),
            can_ask(old(self)@),
        ensures
            final(self)@ == refreshed(old(self)@),
            app_well(final(self)@),
    {
        if self.state.busy.is_none() {
            self.clear_preview(false);
        }
        let _ = self.start_operation(Operation::Refresh, Busy::Load, "refreshing…");
    }

    /// Handles a key in the search for repositories while it is being typed.
    fn handle_repository_query_key(&mut self, key: KeyEvent) -> (r: bool)
        requires
            app_well(old(self)@),
            old(self)@.repository_search.editing,
        ensures
            (final(self)@, r) == repository_query_key(old(self)@, key),
            app_well(final(self)@),
    {
        match key.code {
            KeyCode::Esc => {
                self.repository_search.editing = false;
            },
            KeyCode::Enter => {
                self.repository_search.editing = false;
            },
            KeyCode::Up => self.move_repository_cursor(-1),
            KeyCode::Down => self.move_repository_cursor(1),
            KeyCode::Backspace => {
                self.repository_search.query = shorten(self.repository_search.query.as_str());
                self.repository_cursor = 0;
            },
            KeyCode::Char(character) => {
                if key.control {
                    return false;
                }
                self.repository_search.query.push(character);
                self.repository_cursor = 0;
            },
            _ => {
                return false;
            },
        }
        true
    }

    /// Handles a key in the list of repositories.
    fn handle_repository_list_key(&mut self, key: KeyEvent) -> (r: bool)
        requires
            app_well(old(self)@),
            can_ask(old(self)@),
        ensures
            (final(self)@, r) == repository_list_key(old(self)@, key.code),
            app_well(final(self)@),
    {
        match key.code {
            KeyCode::Up => self.move_repository_cursor(-1),
            KeyCode::Char('k') => self.move_repository_cursor(-1),
            KeyCode::Down => self.move_repository_cursor(1),
            KeyCode::Char('j') => self.move_repository_cursor(1),
            KeyCode::Char('/') => {
                self.repository_search.editing = true;
                self.repository_search.query = String::new();
                assert(self.repository_search.query@ =~= Seq::<char>::empty());
                self.repository_cursor = 0;
            },
            KeyCode::Esc => {
                let root = self.highlighted_repository();
                self.repository_search.query = String::new();
                assert(self.repository_search.query@ =~= Seq::<char>::empty());
                self.repository_cursor = place_in(&self.workspace.repositories, &root);
            },
            KeyCode::Enter => {
                match self.highlighted_repository() {
                    Some(root) => self.activate(root),
                    None => {},
                }
            },
            KeyCode::Char('r') => self.ask_rescan(false),
            _ => {
                return false;
            },
        }
        true
    }

    /// Handles a key in the list of repositories or in the search there.
    pub fn handle_repository_key(&mut self, key: KeyEvent) -> (r: bool)
        requires
            app_well(old(self)@),
            can_ask(old(self)@),
        ensures
            (final(self)@, r) == repository_key(old(self)@, key),
            app_well(final(self)@),
    {
        if self.repository_search.editing {
            self.handle_repository_query_key(key)
        } else {
            self.handle_repository_list_key(key)
        }
    }

    /// Moves the cursor in the graph.
    pub fn move_cursor(&mut self, amount: isize)
        requires
            app_well(old(self)@),
        ensures
            final(self)@ == cursor_moved(old(self)@, amount as int),
            app_well(final(self)@),
    {
        if !preserve_preview_while_navigating(self.state.publish_plan.is_some()) {
            self.clear_preview(true);
        }
        let ids = self.state.graph_ids();
        assert(texts(ids@).len() == ids.len());
        if ids.len() == 0 {
            return ;
        }
        let current = place_in(&ids, &self.state.selected);
        let next = step_place(current, amount, ids.len());
        assert(texts(ids@)[next as int] == ids@[next as int]@);
        self.state.selected = Some(ids[next].clone());
    }

    /// Picks commits up to be moved.
    fn take_up(&mut self, selected: String, commits: Vec<String>, substack: bool)
        requires
            app_well(old(self)@),
        ensures
            final(self)@ == taken_up(old(self)@, selected@, texts(commits@), substack),
            app_well(final(self)@),
    {
        self.clear_preview(false);
        self.state.carried = Some(selected);
        self.state.carried_commits = commits;
        self.state.carry_substack = substack;
        self.state.status = None;
        self.state.status_error = false;
    }

    /// Tells of an error.
    fn fail(&mut self, error: String)
        ensures
            final(self)@ == failed(old(self)@, error@),
            app_well(old(self)@) ==> app_well(final(self)@),
    {
        self.state.status = Some(error);
        self.state.status_error = true;
    }

    /// Picks the selected commit up, alone or with the commits above it.
    pub fn pick(&mut self, substack: bool)
        requires
            app_well(old(self)@),
        ensures
            final(self)@ == picked(old(self)@, substack),
            app_well(final(self)@),
    {
        let selected = match &self.state.selected {
            Some(selected) => selected.clone(),
            None => {
                return ;
            },
        };
        if !substack {
            let mut commits: Vec<String> = Vec::new();
            commits.push(selected.clone());
            assert(texts(commits@) =~= seq![selected@]);
            self.take_up(selected, commits, false);
            return ;
        }
        let commits = match &self.state.graph {
            Some(graph) => graph.carried_substack(selected.as_str()),
            None => {
                return ;
            },
        };
        match commits {
            Ok(commits) => self.take_up(selected, commits, true),
            Err(error) => {
                self.clear_preview(false);
                self.fail(error);
            },
        }
    }

    /// Asks for the move that waits to be confirmed.
    pub fn apply(&mut self)
        requires
            app_well(old(self)@),
            can_ask(old(self)@),
        ensures
            final(self)@ == applied(old(self)@),
            app_well(final(self)@),
    {
        let plan = match &self.state.pending {
            Some(plan) => plan.clone(),
            None => {
                return ;
            },
        };
        if self.start_operation(Operation::Apply(plan), Busy::Mutation, "applying…") {
            self.state.pending = None;
        }
    }

    /// Asks for the publication that waits to be confirmed.
    pub fn execute_publish(&mut self)
        requires
            app_well(old(self)@),
            can_ask(old(self)@),
        ensures
            final(self)@ == publish_executed(old(self)@),
            app_well(final(self)@),
    {
        let plan = match &self.state.publish_plan {
            Some(plan) => plan.clone(),
            None => {
                self.fail("press p or u to preview publish changes first".to_owned());
                return ;
            },
        };
        let _ = self.start_operation(
            Operation::PublishExecute(plan),
            Busy::Mutation,
            "publishing and linking…",
        );
    }

    /// Shows what is picked up where it would be moved to.
    fn drop_at(&mut self, source: String, destination: String)
        requires
            app_well(old(self)@),
        ensures
            final(self)@ == dropped(old(self)@, source@, destination@),
            app_well(final(self)@),
    {
        let made = match &self.state.graph {
            None => {
                return ;
            },
            Some(graph) => match graph.plan_move(
                source.as_str(),
                destination.as_str(),
                self.state.carry_substack,
            ) {
                Err(error) => Err(error),
                Ok(plan) => match graph.preview(&plan) {
                    Err(error) => Err(error),
                    Ok(preview) => {
                        proof {
                            lemma_preview_sound(graph@, plan@);
                        }
                        Ok((plan, preview))
                    },
                },
            },
        };
        match made {
            Err(error) => self.fail(error),
            Ok((plan, preview)) => {
                self.state.pending = Some(plan);
                self.state.preview = Some(preview);
                self.update_rendered();
                self.state.status = None;
                self.state.status_error = false;
            },
        }
    }

    /// Confirms what waits, or drops what is picked up, or checks the selected commit out.
    pub fn enter(&mut self)
        requires
            app_well(old(self)@),
            can_ask(old(self)@),
        ensures
            final(self)@ == entered(old(self)@),
            app_well(final(self)@),
    {
        if self.state.pending.is_some() {
            self.apply();
            return ;
        }
        if self.state.publish_plan.is_some() {
            self.execute_publish();
            return ;
        }
        let selected = match &self.state.selected {
            Some(selected) => selected.clone(),
            None => {
                return ;
            },
        };
        match copy_option(&self.state.carried) {
            Some(source) => self.drop_at(source, selected),
            None => {
                let branch = match &self.state.graph {
                    Some(graph) => checkout_branch(graph, selected.as_str()),
                    None => None,
                };
                let _ = self.start_operation(
                    Operation::Checkout { revision: selected, branch },
                    Busy::Mutation,
                    "checking out…",
                );
            },
        }
    }

    /// Asks for the plan of a publication to a remote.
    pub fn preview_publish(&mut self, remote: String)
        requires
            app_well(old(self)@),
            can_ask(old(self)@),
        ensures
            final(self)@ == publish_previewed(old(self)@, remote@),
            app_well(final(self)@),
    {
        let mut options = self.publish_options.clone();
        options.remote = remote;
        if self.state.busy.is_none() {
            self.clear_preview(false);
        }
        let _ = self.start_operation(
            Operation::PublishPreview(options),
            Busy::Load,
            "planning publish…",
        );
    }

    /// Selects the next match, or the one before.
    pub fn next_match(&mut self, backwards: bool)
        ensures
            final(self)@ == next_matched(old(self)@, backwards),
            app_well(old(self)@) ==> app_well(final(self)@),
    {
        let count = self.state.search.matches.len();
        assert(self@.state.search.matches.len() == count);
        if count == 0 {
            return ;
        }
        let current = match &self.state.selected {
            Some(id) => first_place(&self.state.search.matches, id.as_str()),
            None => None,
        };
        let index = match current {
            Some(i) => if backwards {
                if i == 0 {
                    count - 1
                } else {
                    i - 1
                }
            } else if i + 1 < count {
                i + 1
            } else {
                0
            },
            None => if backwards {
                count - 1
            } else {
                0
            },
        };
        assert(self@.state.search.matches[index as int]
            == self.state.search.matches@[index as int]@);
        self.state.selected = Some(self.state.search.matches[index].clone());
    }

    /// Handles a key in the search in the graph while it is being typed.
    pub fn handle_search_key(&mut self, key: KeyEvent) -> (r: bool)
        requires
            app_well(old(self)@),
        ensures
            (final(self)@, r) == search_key(old(self)@, key),
            app_well(final(self)@),
    {
        match key.code {
            KeyCode::Esc => {
                self.state.search.editing = false;
            },
            KeyCode::Enter => {
                self.state.search.editing = false;
                assert(self@ =~= search_editing(old(self)@, false));
                self.update_search();
                self.next_match(false);
            },
            KeyCode::Up => self.next_match(true),
            KeyCode::Down => self.next_match(false),
            KeyCode::Backspace => {
                self.state.search.query = shorten(self.state.search.query.as_str());
                assert(self@.state.graph == old(self)@.state.graph);
                assert(app_well(self@));
                self.update_search();
            },
            KeyCode::Char(character) => {
                if key.control {
                    return false;
                }
                self.state.search.query.push(character);
                assert(self@.state.graph == old(self)@.state.graph);
                assert(app_well(self@));
                self.update_search();
            },
            _ => {
                return false;
            },
        }
        true
    }

    /// Handles a key in the graph of the active repository.
    fn handle_graph_key(&mut self, key: KeyEvent) -> (r: bool)
        requires
            app_well(old(self)@),
            can_ask(old(self)@),
        ensures
            (final(self)@, r) == graph_key(old(self)@, key),
            app_well(final(self)@),
    {
        if self.state.busy.is_some() {
            let waiting = match key.code {
                KeyCode::Enter => true,
                KeyCode::Char(c) => c == 'm' || c == 'M' || c == 'p' || c == 'r' || c == 'u' || c
                    == 'q',
                _ => false,
            };
            if waiting {
                self.reject_busy_operation();
                return true;
            }
        }
        match move_pick(&key) {
            Some(substack) => {
                self.pick(substack);
                return true;
            },
            None => {},
        }
        match key.code {
            KeyCode::Up => self.move_cursor(-1),
            KeyCode::Char('k') => self.move_cursor(-1),
            KeyCode::Down => self.move_cursor(1),
            KeyCode::Char('j') => self.move_cursor(1),
            KeyCode::Enter => self.enter(),
            KeyCode::Char('p') => {
                let remote = self.publish_options.remote.clone();
                self.preview_publish(remote);
            },
            KeyCode::Char('u') => self.preview_publish("upstream".to_owned()),
            KeyCode::Esc => self.clear_preview(false),
            KeyCode::Char('/') => {
                self.clear_preview(true);
                self.state.search.editing = true;
                self.state.search.query = String::new();
                self.state.search.matches = Vec::new();
                assert(self.state.search@ =~= (SearchView {
                    editing: true,
                    query: Seq::empty(),
                    matches: Seq::empty(),
                }));
            },
            KeyCode::Char('n') => self.next_match(key.shift),
            KeyCode::Char('N') => self.next_match(true),
            KeyCode::Char('r') => self.ask_rescan(true),
            KeyCode::Char('q') => {
                self.quit = true;
            },
            _ => {
                return false;
            },
        }
        true
    }

    /// Handles a key, and tells whether it did anything.
    pub fn handle_key(&mut self, key: KeyEvent) -> (r: bool)
        requires
            app_well(old(self)@),
            can_ask(old(self)@),
        ensures
            (final(self)@, r) == key_handled(old(self)@, key),
            app_well(final(self)@),
    {
        if self.help_open {
            self.help_open =
            match help_transition(true, &key) {
                Some(open) => open,
                None => true,
            };
            return true;
        }
        let tab = match key.code {
            KeyCode::Tab => true,
            KeyCode::BackTab => true,
            _ => false,
        };
        if tab {
            if self.has_sidebar() {
                self.pane = match self.pane {
                    Pane::Repositories => Pane::Graph,
                    Pane::Graph => Pane::Repositories,
                };
            }
            return true;
        }
        let in_list = match self.pane {
            Pane::Repositories => true,
            Pane::Graph => false,
        };
        if in_list && self.repository_search.editing {
            return self.handle_repository_key(key);
        }
        if !in_list && self.state.search.editing {
            return self.handle_search_key(key);
        }
        match help_transition(false, &key) {
            Some(open) => {
                self.help_open = open;
                return true;
            },
            None => {},
        }
        let quits = match key.code {
            KeyCode::Char('q') => true,
            _ => false,
        };
        if in_list {
            if quits {
                if self.is_mutating() {
                    self.reject_busy_operation();
                } else {
                    self.quit = true;
                }
                return true;
            }
            return self.handle_repository_key(key);
        }
        if self.active.is_none() {
            match key.code {
                KeyCode::Char('q') => {
                    self.quit = true;
                },
                KeyCode::Char('r') => self.ask_rescan(false),
                _ => {
                    return false;
                },
            }
            return true;
        }
        self.handle_graph_key(key)
    }

    /// Takes in what came of an operation.
    pub fn receive(&mut self, response: OperationResult)
        requires
            app_well(old(self)@),
            result_sound(response@),
        ensures
            final(self)@ == app_received(old(self)@, response@),
            app_well(final(self)@),
    {
        let ghost a = self@;
        let ghost v = response@;
        let is_active = match &self.active {
            Some(path) => same(path.as_str(), response.repo.as_str()),
            None => false,
        };
        if is_active {
            self.state.receive(response, true);
            self.update_search();
            self.dirty = true;
            return ;
        }
        let ghost raw = self.cached.raw();
        let repo = response.repo.clone();
        match self.cached.get_mut(repo.as_str()) {
            Some(state) => {
                proof {
                    assert(a.cached.contains_key(repo@));
                    assert(state@ == a.cached[repo@]);
                }
                state.receive(response, false);
            },
            None => {},
        }
        proof {
            if a.cached.contains_key(v.repo) {
                let next = state_received(a.cached[v.repo], v, false);
                assert(self.cached@ =~= a.cached.insert(v.repo, next));
                assert forall|k: Text| #[trigger] self@.cached.contains_key(k) implies state_well(
                    self@.cached[k],
                ) by {
                    assert(a.cached.contains_key(k));
                }
            }
        }
    }

    /// Takes in an event.
    pub fn handle(&mut self, event: UiEvent) -> (r: Result<(), String>)
        requires
            app_well(old(self)@),
            can_ask(old(self)@),
            event matches UiEvent::OperationCompleted(result) ==> result_sound(result@),
        ensures
            app_well(final(self)@),
            match event {
                UiEvent::Terminal(TerminalEvent::Press(key)) => {
                    let (next, handled) = key_handled(old(self)@, key);
                    &&& r is Ok
                    &&& final(self)@ == (AppView { dirty: next.dirty || handled, ..next })
                },
                UiEvent::Terminal(TerminalEvent::Resize) => r is Ok && final(self)@ == (AppView {
                    dirty: true,
                    ..old(self)@
                }),
                UiEvent::Terminal(TerminalEvent::Other) => r is Ok && final(self)@ == old(self)@,
                UiEvent::OperationCompleted(result) => r is Ok && final(self)@ == app_received(
                    old(self)@,
                    result@,
                ),
                UiEvent::InputError(error) => final(self)@ == old(self)@ && match r {
                    Err(reason) => reason@ == error@,
                    Ok(()) => false,
                },
            },
    {
        match event {
            UiEvent::Terminal(TerminalEvent::Press(key)) => {
                if self.handle_key(key) {
                    self.dirty = true;
                }
            },
            UiEvent::Terminal(TerminalEvent::Resize) => {
                self.dirty = true;
            },
            UiEvent::Terminal(TerminalEvent::Other) => {},
            UiEvent::OperationCompleted(result) => {
                self.receive(*result);
            },
            UiEvent::InputError(error) => {
                return Err(error);
            },
        }
        Ok(())
    }
}

} // verus!

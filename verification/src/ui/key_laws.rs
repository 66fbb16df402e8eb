//! What the keys of the interactive view do, and what is shown then.

use crate::integrations::github::LinkView;
use crate::paths::called_below;
use crate::stack::submit::OptionsView;
use crate::text::{lower_text, occurs, Text};
use crate::ui::app::{
    activated, app_received, begun, cursor_moved, dropped, entered, filtered, graph_key,
    key_handled, offered, picked, place_or_first, preview_cleared, publish_previewed, refreshed,
    repositories_replaced, rescanned, search_matches, switched, waits, AppView, Pane,
};
use crate::ui::draw_laws::lemma_filter_all;
use crate::ui::event::{OperationResultView, OperationView, RequestView};
use crate::ui::keys::{picks, KeyCode, KeyEvent};
use crate::ui::model::GraphView;
use crate::ui::moves::{carried, planned};
use crate::ui::preview::previewed;
use crate::ui::render::label_text;
use crate::ui::state::{active_graph, drawn_lines, shown_order, state_received, Busy, StateView};
use crate::ui::workspace::WorkspaceView;
use vstd::prelude::*;

verus! {

/// A repository is active, its graph takes the keys, and nothing is running.
pub open spec fn idle(a: AppView) -> bool {
    &&& !a.help_open
    &&& a.pane == Pane::Graph
    &&& !a.state.search.editing
    &&& a.active is Some
    &&& a.state.busy is None
    &&& a.next_request_id < u64::MAX
}

/// One more operation is asked for, and is running.
pub open spec fn asks(
    a: AppView,
    b: AppView,
    options: OptionsView,
    operation: OperationView,
    busy: Busy,
) -> bool {
    &&& b.requests == a.requests.push(
        RequestView { options, id: (a.next_request_id + 1) as u64, operation },
    )
    &&& b.next_request_id == a.next_request_id + 1
    &&& b.state.request_id == b.next_request_id
    &&& b.state.busy == Some(busy)
    &&& !b.state.status_error
}

/// Nothing is shown as it would be, and nothing waits to be confirmed.
pub open spec fn nothing_waits(s: StateView) -> bool {
    s.preview is None && s.pending is None && s.publish_plan is None
}

/// `p` asks what publishing to the remote of the options would change, and `u` the same for
/// `upstream`. What waited to be confirmed waits no longer.
pub proof fn law_publishing_keys(a: AppView, key: KeyEvent)
    requires
        idle(a),
        key.code == KeyCode::Char('p') || key.code == KeyCode::Char('u'),
    ensures
        ({
            let b = key_handled(a, key).0;
            let remote = if key.code == KeyCode::Char('p') {
                a.publish_options.remote
            } else {
                "upstream"@
            };
            &&& asks(
                a,
                b,
                a.publish_options,
                OperationView::PublishPreview(OptionsView { remote, ..a.publish_options }),
                Busy::Load,
            )
            &&& nothing_waits(b.state)
            &&& b.state.carried is None
            &&& !b.state.discard_preview
        }),
{
}

/// With nothing picked up and nothing to be confirmed, Enter checks the selected commit out,
/// by its branch where it has just one.
pub proof fn law_enter_checks_out(a: AppView, key: KeyEvent, id: Text, graph: GraphView)
    requires
        idle(a),
        key.code == KeyCode::Enter,
        a.state.pending is None,
        a.state.publish_plan is None,
        a.state.carried is None,
        a.state.selected == Some(id),
        a.state.graph == Some(graph),
        graph.commits.contains_key(id),
    ensures
        ({
            let b = key_handled(a, key).0;
            let refs = graph.commits[id].local_refs;
            &&& refs.len() == 1 ==> asks(
                a,
                b,
                a.publish_options,
                OperationView::Checkout { revision: id, branch: Some(refs[0]) },
                Busy::Mutation,
            )
            &&& refs.len() != 1 ==> asks(
                a,
                b,
                a.publish_options,
                OperationView::Checkout { revision: id, branch: None },
                Busy::Mutation,
            )
        }),
{
}

/// `m` picks up the selected commit alone, and `M` with the commits above it. Picking up
/// changes nothing in the repository.
pub proof fn law_picking_up(a: AppView, key: KeyEvent, id: Text, graph: GraphView)
    requires
        idle(a),
        key.code == KeyCode::Char('m') || key.code == KeyCode::Char('M'),
        a.state.selected == Some(id),
        a.state.graph == Some(graph),
    ensures
        ({
            let b = key_handled(a, key).0;
            let alone = key.code == KeyCode::Char('m');
            &&& b.requests == a.requests
            &&& b.state.graph == a.state.graph
            &&& b.state.selected == a.state.selected
            &&& nothing_waits(b.state)
            &&& alone ==> b.state.carried == Some(id) && b.state.carried_commits == seq![id]
                && !b.state.carry_substack
            &&& !alone && carried(graph, id) is Ok ==> b.state.carried == Some(id)
                && b.state.carried_commits == carried(graph, id)->Ok_0 && b.state.carry_substack
            &&& !alone && carried(graph, id) is Err ==> b.state.carried is None && b.state.status
                == Some(carried(graph, id)->Err_0) && b.state.status_error
        }),
{
}

/// Enter shows what is picked up where it would be moved to: behind the selected commit.
/// The move waits to be confirmed. Where it cannot be made, why is told and nothing waits.
#[verifier::rlimit(30)]
pub proof fn law_dropping(a: AppView, key: KeyEvent, from: Text, to: Text, graph: GraphView)
    requires
        idle(a),
        key.code == KeyCode::Enter,
        a.state.pending is None,
        a.state.publish_plan is None,
        a.state.carried == Some(from),
        a.state.selected == Some(to),
        a.state.graph == Some(graph),
    ensures
        ({
            let b = key_handled(a, key).0;
            let plan = planned(graph, from, to, a.state.carry_substack);
            &&& b.requests == a.requests
            &&& b.state.graph == a.state.graph
            &&& plan is Ok && previewed(graph, plan->Ok_0) is Ok ==> {
                &&& b.state.pending == Some(plan->Ok_0)
                &&& b.state.preview == Some(previewed(graph, plan->Ok_0)->Ok_0)
                &&& !b.state.status_error
            }
            &&& plan is Err ==> b.state.pending is None && b.state.status == Some(plan->Err_0)
                && b.state.status_error && b.state.preview == a.state.preview
        }),
{
}

/// Escape cancels what is picked up, shown as it would be or to be confirmed.
pub proof fn law_escape_cancels(a: AppView, key: KeyEvent)
    requires
        idle(a),
        key.code == KeyCode::Esc,
    ensures
        ({
            let b = key_handled(a, key).0;
            &&& nothing_waits(b.state)
            &&& b.state.carried is None
            &&& b.state.carried_commits.len() == 0
            &&& b.state.graph == a.state.graph
            &&& b.state.selected == a.state.selected
            &&& b.requests == a.requests
            &&& !b.quit || a.quit
        }),
{
}

/// The arrows and their letters select the commit below or above, as far as there is one.
pub proof fn law_arrows_select(a: AppView, key: KeyEvent, i: int)
    requires
        idle(a),
        nothing_waits(a.state),
        0 <= i < shown_order(a.state).len() <= usize::MAX,
        shown_order(a.state).no_duplicates(),
        a.state.selected == Some(shown_order(a.state)[i]),
    ensures
        ({
            let b = key_handled(a, key).0;
            let ids = shown_order(a.state);
            let down = key.code == KeyCode::Down || key.code == KeyCode::Char('j');
            let up = key.code == KeyCode::Up || key.code == KeyCode::Char('k');
            &&& down && i + 1 < ids.len() ==> b.state.selected == Some(ids[i + 1])
            &&& down && i + 1 == ids.len() ==> b.state.selected == Some(ids[i])
            &&& up && i > 0 ==> b.state.selected == Some(ids[i - 1])
            &&& up && i == 0 ==> b.state.selected == Some(ids[0])
            &&& down || up ==> b.state.graph == a.state.graph && b.state.carried
                == a.state.carried && b.requests == a.requests
        }),
{
    let ids = shown_order(a.state);
    let cleared = preview_cleared(a, true);
    assert(shown_order(cleared.state) == ids);
    ids.index_of_first_ensures(ids[i]);
}

/// `r` asks for a search for the repositories, behind which the active one is read again,
/// and `q` leaves.
pub proof fn law_other_keys(a: AppView, key: KeyEvent)
    requires
        idle(a),
    ensures
        ({
            let b = key_handled(a, key).0;
            &&& key.code == KeyCode::Char('r') ==> b.rescan == Some(true) && b.requests
                == a.requests
            &&& key.code == KeyCode::Char('q') ==> b.quit && b.requests == a.requests
            &&& key.code == KeyCode::Char('?') ==> b.help_open
            &&& key.code == KeyCode::Char('/') ==> b.state.search.editing
                && b.state.search.query.len() == 0 && b.state.search.matches.len() == 0
                && b.state.carried == a.state.carried
            &&& key.code != KeyCode::Char('q') ==> b.quit == a.quit
        }),
{
}

/// The commits that match a search are those of the graph whose labels hold what is searched
/// for, in whatever case, in the order of the graph.
pub proof fn law_searches_find(s: StateView, graph: GraphView)
    requires
        s.graph == Some(graph),
    ensures
        forall|id: Text| #[trigger]
            search_matches(s).contains(id) <==> {
                &&& graph.order.contains(id)
                &&& graph.commits.contains_key(id)
                &&& occurs(
                    lower_text(label_text(graph.commits[id], graph.branch)),
                    lower_text(s.search.query),
                )
            },
        (forall|id: Text| #[trigger]
            graph.order.contains(id) ==> graph.commits.contains_key(id) && occurs(
                lower_text(label_text(graph.commits[id], graph.branch)),
                lower_text(s.search.query),
            )) ==> search_matches(s) == graph.order,
{
    let found = |id: Text|
        graph.commits.contains_key(id) && occurs(
            lower_text(label_text(graph.commits[id], graph.branch)),
            lower_text(s.search.query),
        );
    assert(search_matches(s) == graph.order.filter(found));
    lemma_filtered(graph.order, found);
    if forall|id: Text| #[trigger] graph.order.contains(id) ==> found(id) {
        assert forall|i: int| 0 <= i < graph.order.len() implies found(#[trigger] graph.order[i]) by {
            assert(graph.order.contains(graph.order[i]));
        }
        lemma_filter_all(graph.order, found);
    }
}

proof fn lemma_filtered(v: Seq<Text>, p: spec_fn(Text) -> bool)
    ensures
        forall|x: Text| #[trigger] v.filter(p).contains(x) <==> v.contains(x) && p(x),
{
    assert forall|x: Text| #[trigger] v.filter(p).contains(x) implies v.contains(x) && p(x) by {
        let i = choose|i: int| 0 <= i < v.filter(p).len() && v.filter(p)[i] == x;
        v.lemma_filter_pred(p, i);
        v.lemma_filter_contains_rev(p, x);
    }
    assert forall|x: Text| v.contains(x) && p(x) implies #[trigger] v.filter(p).contains(x) by {
        let i = choose|i: int| 0 <= i < v.len() && v[i] == x;
        v.lemma_filter_contains(p, i);
    }
}

/// While a search is typed, characters are added to it, Backspace takes the last away, and
/// what matches is found at once. Enter ends the typing and selects the next match.
#[verifier::rlimit(30)]
pub proof fn law_typing_searches(a: AppView, key: KeyEvent)
    requires
        !a.help_open,
        a.pane == Pane::Graph,
        a.state.search.editing,
    ensures
        ({
            let b = key_handled(a, key).0;
            let query = a.state.search.query;
            &&& b.requests == a.requests
            &&& b.state.graph == a.state.graph
            &&& key.code matches KeyCode::Char(c) ==> !key.control ==> b.state.search.query
                == query.push(c) && b.state.search.matches == search_matches(b.state)
                && b.state.search.editing
            &&& key.code == KeyCode::Backspace && query.len() > 0 ==> b.state.search.query
                == query.drop_last() && b.state.search.matches == search_matches(b.state)
            &&& key.code == KeyCode::Esc ==> !b.state.search.editing && b.state.search.query
                == query
            &&& key.code == KeyCode::Enter ==> {
                &&& !b.state.search.editing
                &&& b.state.search.query == query
                &&& b.state.search.matches == search_matches(a.state)
                &&& search_matches(a.state).len() > 0 ==> b.state.selected is Some
                    && search_matches(a.state).contains(b.state.selected->0)
            }
        }),
{
    let matches = search_matches(a.state);
    if key.code == KeyCode::Enter && matches.len() > 0 {
        if a.state.selected is Some {
            matches.index_of_first_ensures(a.state.selected->0);
        }
        let b = key_handled(a, key).0;
        assert(exists|i: int| 0 <= i < matches.len() && b.state.selected == Some(matches[i])) by {
            let current = match a.state.selected {
                Some(id) => matches.index_of_first(id),
                None => None,
            };
            let place = match current {
                Some(i) => if i + 1 < matches.len() {
                    i + 1
                } else {
                    0
                },
                None => 0,
            };
            assert(b.state.selected == Some(matches[place]));
        }
    }
}

/// `n` selects the match behind the one that is selected, `N` the one before it, round and
/// round.
pub proof fn law_matches_are_gone_through(a: AppView, key: KeyEvent, i: int)
    requires
        idle(a),
        !key.shift,
        0 <= i < a.state.search.matches.len(),
        a.state.search.matches.no_duplicates(),
        a.state.selected == Some(a.state.search.matches[i]),
    ensures
        ({
            let b = key_handled(a, key).0;
            let matches = a.state.search.matches;
            &&& key.code == KeyCode::Char('n') ==> b.state.selected == Some(
                matches[(i + 1) % (matches.len() as int)],
            )
            &&& key.code == KeyCode::Char('N') ==> b.state.selected == Some(
                matches[(i + matches.len() - 1) % (matches.len() as int)],
            )
        }),
{
    let matches = a.state.search.matches;
    let n = matches.len() as int;
    matches.index_of_first_ensures(matches[i]);
    if i + 1 < n {
        vstd::arithmetic::div_mod::lemma_small_mod((i + 1) as nat, n as nat);
    } else {
        vstd::arithmetic::div_mod::lemma_mod_self_0(n);
    }
    if i == 0 {
        vstd::arithmetic::div_mod::lemma_small_mod((n - 1) as nat, n as nat);
    } else {
        vstd::arithmetic::div_mod::lemma_mod_add_multiples_vanish(i - 1, n);
        vstd::arithmetic::div_mod::lemma_small_mod((i - 1) as nat, n as nat);
        assert((n + (i - 1)) % n == i - 1);
    }
}

/// The repositories that are offered are those whose name below the workspace holds the
/// query, in whatever case, or whose path does where the query has a slash.
pub proof fn law_repositories_are_offered(a: AppView)
    ensures
        forall|path: Text| #[trigger]
            filtered(a).contains(path) <==> {
                &&& a.workspace.repositories.contains(path)
                &&& {
                    ||| occurs(
                        lower_text(called_below(path, a.workspace.root)),
                        lower_text(a.repository_search.query),
                    )
                    ||| lower_text(a.repository_search.query).contains('/') && occurs(
                        lower_text(path),
                        lower_text(a.repository_search.query),
                    )
                }
            },
{
    let query = lower_text(a.repository_search.query);
    lemma_filtered(a.workspace.repositories, offered(a.workspace.root, query));
}

/// Enter in the list of repositories activates the one at the cursor: it is then the one
/// that operations are about, and its graph is asked for where it is not known.
#[verifier::rlimit(30)]
pub proof fn law_entering_a_repository(a: AppView, key: KeyEvent)
    requires
        !a.help_open,
        a.pane == Pane::Repositories,
        !a.repository_search.editing,
        key.code == KeyCode::Enter,
        a.repository_cursor < filtered(a).len(),
        a.state.busy != Some(Busy::Mutation),
        a.active != Some(filtered(a)[a.repository_cursor as int]),
        a.next_request_id < u64::MAX,
    ensures
        ({
            let b = key_handled(a, key).0;
            let root = filtered(a)[a.repository_cursor as int];
            &&& b.active == Some(root)
            &&& b.publish_options.repo == root
            &&& b.publish_options == (OptionsView { repo: root, ..a.publish_options })
            &&& a.active is Some ==> b.cached.contains_key(a.active->0)
                && b.cached[a.active->0].graph == a.state.graph && nothing_waits(
                b.cached[a.active->0],
            )
            &&& a.cached.contains_key(root) ==> b.state.graph == a.cached[root].graph
                && b.state.selected == a.cached[root].selected
            &&& !a.cached.contains_key(root) ==> b.state.graph is None && asks(
                a,
                b,
                OptionsView { repo: root, ..a.publish_options },
                OperationView::Load,
                Busy::Load,
            )
        }),
{
}

/// What is drawn is the graph that is shown, and of the repositories that are not active
/// it is known where that does not hold.
pub open spec fn drawing_is_current(a: AppView) -> bool {
    &&& a.state.rendered == drawn_lines(a.state)
    &&& forall|k: Text| #[trigger]
        a.cached.contains_key(k) ==> a.cached[k].render_dirty || a.cached[k].rendered
            == drawn_lines(a.cached[k])
}

#[verifier::rlimit(30)]
proof fn lemma_activated_current(a: AppView, root: Text)
    requires
        drawing_is_current(a),
    ensures
        drawing_is_current(activated(a, root)),
{
    let cleared = preview_cleared(a, false);
    assert(drawing_is_current(cleared));
    assert(drawing_is_current(switched(a, root)));
}

proof fn lemma_same_drawing(a: AppView, b: AppView)
    requires
        drawing_is_current(a),
        b.cached == a.cached,
        b.state.graph == a.state.graph,
        b.state.preview == a.state.preview,
        b.state.pr_links == a.state.pr_links,
        b.state.rendered == a.state.rendered,
    ensures
        drawing_is_current(b),
{
}

proof fn lemma_cleared_current(a: AppView, keep: bool)
    requires
        drawing_is_current(a),
    ensures
        drawing_is_current(preview_cleared(a, keep)),
{
}

proof fn lemma_moved_current(a: AppView, amount: int)
    requires
        drawing_is_current(a),
    ensures
        drawing_is_current(cursor_moved(a, amount)),
{
    let b = cursor_moved(a, amount);
    if a.state.publish_plan is Some {
        assert(cleared_by(a, b));
        lemma_same_drawing(a, b);
    } else {
        lemma_cleared_current(a, true);
        assert(cleared_by(preview_cleared(a, true), b));
        lemma_same_drawing(preview_cleared(a, true), b);
    }
}

proof fn lemma_picked_current(a: AppView, substack: bool)
    requires
        drawing_is_current(a),
    ensures
        drawing_is_current(picked(a, substack)),
{
    let b = picked(a, substack);
    lemma_cleared_current(a, false);
    if b == a {
    } else {
        assert(cleared_by(preview_cleared(a, false), b));
        lemma_same_drawing(preview_cleared(a, false), b);
    }
}

#[verifier::rlimit(30)]
proof fn lemma_entered_current(a: AppView)
    requires
        drawing_is_current(a),
    ensures
        drawing_is_current(entered(a)),
{
    let b = entered(a);
    if a.state.pending is None && a.state.publish_plan is None && a.state.selected is Some
        && a.state.carried is Some {
        let dropped_there = dropped(a, a.state.carried->0, a.state.selected->0);
        assert(b == dropped_there);
        if dropped_there.dirty == a.dirty && cleared_by(a, b) {
            lemma_same_drawing(a, b);
        } else {
            assert(b.cached == a.cached);
            assert(b.state.rendered == drawn_lines(b.state));
        }
    } else {
        assert(cleared_by(a, b));
        lemma_same_drawing(a, b);
    }
}

proof fn lemma_published_current(a: AppView, remote: Text)
    requires
        drawing_is_current(a),
    ensures
        drawing_is_current(publish_previewed(a, remote)),
{
    let b = publish_previewed(a, remote);
    lemma_cleared_current(a, false);
    if a.state.busy is Some {
        assert(cleared_by(a, b));
        lemma_same_drawing(a, b);
    } else {
        assert(cleared_by(preview_cleared(a, false), b));
        lemma_same_drawing(preview_cleared(a, false), b);
    }
}

#[verifier::rlimit(30)]
proof fn lemma_graph_key_current(a: AppView, key: KeyEvent)
    requires
        drawing_is_current(a),
    ensures
        drawing_is_current(graph_key(a, key).0),
{
    let b = graph_key(a, key).0;
    if a.state.busy is Some && waits(key.code) {
        assert(cleared_by(a, b));
        lemma_same_drawing(a, b);
    } else if picks(key.code) is Some {
        lemma_picked_current(a, picks(key.code)->0);
    } else {
        match key.code {
            KeyCode::Up | KeyCode::Char('k') => lemma_moved_current(a, -1),
            KeyCode::Down | KeyCode::Char('j') => lemma_moved_current(a, 1),
            KeyCode::Enter => lemma_entered_current(a),
            KeyCode::Char('p') => lemma_published_current(a, a.publish_options.remote),
            KeyCode::Char('u') => lemma_published_current(a, "upstream"@),
            KeyCode::Esc => lemma_cleared_current(a, false),
            KeyCode::Char('/') => {
                lemma_cleared_current(a, true);
                assert(cleared_by(preview_cleared(a, true), b));
                lemma_same_drawing(preview_cleared(a, true), b);
            },
            _ => {
                assert(cleared_by(a, b));
                lemma_same_drawing(a, b);
            },
        }
    }
}

spec fn cleared_by(a: AppView, b: AppView) -> bool {
    &&& b.cached == a.cached
    &&& b.state.graph == a.state.graph
    &&& b.state.preview == a.state.preview
    &&& b.state.pr_links == a.state.pr_links
    &&& b.state.rendered == a.state.rendered
}

/// What is drawn stays current whatever key comes.
#[verifier::rlimit(30)]
pub proof fn law_keys_keep_the_drawing_current(a: AppView, key: KeyEvent)
    requires
        drawing_is_current(a),
    ensures
        drawing_is_current(key_handled(a, key).0),
{
    let b = key_handled(a, key).0;
    if cleared_by(a, b) {
        lemma_same_drawing(a, b);
    } else if a.pane == Pane::Graph {
        lemma_graph_key_current(a, key);
    } else {
        lemma_activated_current(a, filtered(a)[a.repository_cursor as int]);
    }
}

/// The view begins with what is drawn current.
pub proof fn law_the_first_drawing_is_current(options: OptionsView, workspace: WorkspaceView)
    ensures
        drawing_is_current(begun(options, workspace)),
{
    let none = WorkspaceView { initial: None, ..workspace };
    let a = begun(options, none);
    if workspace.initial is Some {
        let first = AppView {
            workspace,
            pane: Pane::Graph,
            repository_cursor: place_or_first(workspace.repositories, workspace.initial),
            ..a
        };
        assert(begun(options, workspace) == activated(first, workspace.initial->0));
        lemma_activated_current(first, workspace.initial->0);
    }
}

/// What comes of operations, and of a search for the repositories, is drawn.
pub proof fn law_results_are_drawn(
    a: AppView,
    response: OperationResultView,
    found: Result<WorkspaceView, Text>,
)
    requires
        drawing_is_current(a),
    ensures
        drawing_is_current(app_received(a, response)),
        drawing_is_current(rescanned(a, found)),
{
    lemma_received_current(a, response);
    if found is Ok {
        lemma_replaced_current(a, found->Ok_0.repositories);
        let b = repositories_replaced(a, found->Ok_0.repositories);
        if a.rescan == Some(true) && b.active is Some {
            lemma_refreshed_current(b);
        }
    } else {
        assert(cleared_by(a, rescanned(a, found)));
        lemma_same_drawing(a, rescanned(a, found));
    }
}

proof fn lemma_received_current(a: AppView, response: OperationResultView)
    requires
        drawing_is_current(a),
    ensures
        drawing_is_current(app_received(a, response)),
{
    let b = app_received(a, response);
    if a.active == Some(response.repo) {
        let s = state_received(a.state, response, true);
        assert(b.cached == a.cached);
        if response.id == a.state.request_id {
            assert(s.rendered == drawn_lines(s));
        }
        assert(b.state.rendered == s.rendered);
        assert(drawn_lines(b.state) == drawn_lines(s));
    }
}

proof fn lemma_replaced_current(a: AppView, repositories: Seq<Text>)
    requires
        drawing_is_current(a),
    ensures
        drawing_is_current(repositories_replaced(a, repositories)),
{
    let b = repositories_replaced(a, repositories);
    assert forall|k: Text| #[trigger] b.cached.contains_key(k) implies b.cached[k].render_dirty
        || b.cached[k].rendered == drawn_lines(b.cached[k]) by {
        assert(a.cached.contains_key(k));
        assert(b.cached[k] == a.cached[k]);
    }
}

proof fn lemma_refreshed_current(a: AppView)
    requires
        drawing_is_current(a),
    ensures
        drawing_is_current(refreshed(a)),
{
    let b = refreshed(a);
    lemma_cleared_current(a, false);
    if a.state.busy is Some {
        assert(cleared_by(a, b));
        lemma_same_drawing(a, b);
    } else {
        assert(cleared_by(preview_cleared(a, false), b));
        lemma_same_drawing(preview_cleared(a, false), b);
    }
}

/// Behind an operation that succeeded: its graph is shown, or what would become of it where
/// that is wanted. Once the repository is changed nothing is picked up or to be confirmed.
pub proof fn law_results_are_shown(s: StateView, response: OperationResultView)
    requires
        response.id == s.request_id,
        response.graph is Ok,
        !s.discard_preview,
    ensures
        ({
            let next = state_received(s, response, true);
            &&& next.busy is None
            &&& next.graph == Some(response.graph->Ok_0)
            &&& next.preview == response.preview
            &&& response.preview is Some ==> active_graph(next) == response.preview
            &&& response.preview is None ==> active_graph(next) == Some(response.graph->Ok_0)
            &&& s.busy == Some(Busy::Mutation) ==> next.pending is None && next.publish_plan is None
                && next.carried is None && next.carried_commits.len() == 0
            &&& s.busy != Some(Busy::Mutation) ==> next.pending == s.pending
                && next.publish_plan == response.publish_plan && next.carried == s.carried
            &&& response.operation_error is Some ==> next.status == response.operation_error
                && next.status_error
            &&& response.operation_error is None ==> !next.status_error
            &&& response.pr_links is Some && response.pr_links->0 is Ok ==> next.pr_links
                == response.pr_links->0->Ok_0
            &&& response.pr_links is Some && response.pr_links->0 is Err ==> next.pr_links
                == Map::<Text, LinkView>::empty()
            &&& response.pr_links is Some && response.pr_links->0 is Err
                && response.operation_error is None ==> next.status == Some(
                response.pr_links->0->Err_0,
            )
        }),
{
}

/// What is selected stays selected where it is still shown. Else the first commit is.
pub proof fn law_the_selection_stays(s: StateView, response: OperationResultView, id: Text)
    requires
        response.id == s.request_id,
        response.graph is Ok,
        s.selected == Some(id),
    ensures
        ({
            let next = state_received(s, response, true);
            &&& shown_order(next).contains(id) ==> next.selected == Some(id)
            &&& !shown_order(next).contains(id) && shown_order(next).len() > 0 ==> next.selected
                == Some(shown_order(next)[0])
            &&& shown_order(next).len() == 0 ==> next.selected is None
        }),
{
}

/// A search for the repositories takes those that were found. What was kept of others is
/// dropped, the active repository is left where it is gone, and it is read again where that
/// was asked for.
#[verifier::rlimit(30)]
pub proof fn law_repositories_are_replaced(a: AppView, workspace: WorkspaceView)
    requires
        a.state.busy is None,
        a.next_request_id < u64::MAX,
    ensures
        ({
            let b = rescanned(a, Ok(workspace));
            let stays = a.active is Some && workspace.repositories.contains(a.active->0);
            &&& b.workspace.repositories == workspace.repositories
            &&& b.rescan is None
            &&& forall|k: Text| #[trigger]
                b.cached.contains_key(k) <==> a.cached.contains_key(k)
                    && workspace.repositories.contains(k)
            &&& forall|k: Text| #[trigger]
                b.cached.contains_key(k) ==> b.cached[k] == a.cached[k]
            &&& stays ==> b.active == a.active && b.state.graph == a.state.graph
            &&& !stays ==> b.active is None && b.requests == a.requests
            &&& !stays && a.active is Some ==> b.state.graph is None && nothing_waits(b.state)
            &&& stays && a.rescan == Some(true) ==> asks(
                a,
                b,
                a.publish_options,
                OperationView::Refresh,
                Busy::Load,
            )
            &&& stays && a.rescan != Some(true) ==> b.requests == a.requests
        }),
{
    let kept = workspace.repositories.to_set();
    let b = rescanned(a, Ok(workspace));
    assert(b.cached == a.cached.restrict(kept));
    assert forall|k: Text| #[trigger] b.cached.contains_key(k) implies b.cached[k]
        == a.cached[k] by {}
    assert forall|k: Text| #[trigger]
        b.cached.contains_key(k) <==> a.cached.contains_key(k) && workspace.repositories.contains(
            k,
        ) by {
        assert(kept.contains(k) <==> workspace.repositories.contains(k));
    }
}

} // verus!

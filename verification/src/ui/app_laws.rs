//! What holds of the interactive view as a whole.

use crate::text::Text;
use crate::ui::app::{
    activated, app_received, applied, cursor_moved, entered, graph_key, is_free, key_handled,
    match_place, preview_cleared, rejected, started, switched, unsent, waits, AppView, Pane,
};
use crate::ui::event::{OperationResultView, OperationView};
use crate::ui::keys::{KeyCode, KeyEvent};
use crate::ui::screen::{frame_drawn, scrolled, ScreenAreas};
use crate::ui::state::{Busy, StateView};
use vstd::prelude::*;

verus! {

/// Nothing was asked for, or just one operation, which is then the one that is running.
pub open spec fn asked_at_most_one(a: AppView, b: AppView) -> bool {
    ||| b.requests == a.requests
    ||| {
        &&& b.requests.len() == a.requests.len() + 1
        &&& b.requests.drop_last() == a.requests
        &&& b.state.busy is Some
        &&& b.requests.last().id == b.state.request_id
        &&& b.requests.last().id == b.next_request_id
        &&& b.next_request_id == a.next_request_id + 1
    }
}

proof fn lemma_started(a: AppView, operation: OperationView, busy: Busy, status: Text)
    requires
        a.next_request_id < u64::MAX,
    ensures
        asked_at_most_one(a, started(a, operation, busy, status)),
{
    let b = started(a, operation, busy, status);
    if is_free(a) {
        assert(b.requests.drop_last() =~= a.requests);
    }
}

proof fn lemma_activated(a: AppView, root: Text)
    requires
        a.next_request_id < u64::MAX,
    ensures
        asked_at_most_one(a, activated(a, root)),
{
    let b = if a.active != Some(root) {
        switched(a, root)
    } else {
        a
    };
    lemma_started(b, OperationView::Load, Busy::Load, "loading graph…"@);
}

proof fn lemma_graph_key(a: AppView, key: KeyEvent)
    requires
        a.next_request_id < u64::MAX,
    ensures
        asked_at_most_one(a, graph_key(a, key).0),
{
    let b = graph_key(a, key).0;
    let cleared = preview_cleared(a, false);
    if b.requests != a.requests {
        if b.requests.len() > a.requests.len() {
            assert(b.requests.drop_last() =~= a.requests);
        }
    }
}

/// A key asks for one operation at most, and the one that it asks for is then running.
pub proof fn law_one_operation_at_a_time(a: AppView, key: KeyEvent)
    requires
        a.next_request_id < u64::MAX,
    ensures
        asked_at_most_one(a, key_handled(a, key).0),
{
    match crate::ui::app::highlighted(a) {
        Some(root) => lemma_activated(a, root),
        None => {},
    }
    lemma_graph_key(a, key);
}

/// While an operation runs, none can be asked for on the same repository.
pub proof fn law_a_second_operation_is_rejected(
    a: AppView,
    operation: OperationView,
    busy: Busy,
    status: Text,
)
    requires
        a.state.busy is Some,
    ensures
        started(a, operation, busy, status) == rejected(a),
        rejected(a).requests == a.requests,
        rejected(a).state.busy == a.state.busy,
        rejected(a).state.status == Some("another operation is already running"@),
        rejected(a).state.status_error,
{
}

/// While an operation runs, the keys that would ask for one, or leave, are answered by an
/// error and change nothing else.
pub proof fn law_keys_wait_for_the_operation(a: AppView, key: KeyEvent)
    requires
        a.state.busy is Some,
        a.active is Some,
        a.pane == Pane::Graph,
        !a.help_open,
        !a.state.search.editing,
        waits(key.code),
    ensures
        key_handled(a, key) == (rejected(a), true),
{
}

/// Keys in the list of repositories ask for nothing, but for the one that activates the
/// repository at the cursor.
pub proof fn law_browsing_never_loads(a: AppView, key: KeyEvent)
    requires
        a.pane == Pane::Repositories,
        key.code != KeyCode::Enter || a.repository_search.editing,
    ensures
        key_handled(a, key).0.requests == a.requests,
        key_handled(a, key).0.active == a.active,
        key_handled(a, key).0.cached == a.cached,
{
}

/// The keys that choose the pane, and those of the help, ask for nothing.
pub proof fn law_focus_never_loads(a: AppView, key: KeyEvent)
    requires
        a.help_open || key.code == KeyCode::Tab || key.code == KeyCode::BackTab,
    ensures
        key_handled(a, key).0.requests == a.requests,
        key_handled(a, key).0.active == a.active,
        key_handled(a, key).0.state == a.state,
{
}

/// While the help is open, keys do nothing but close it.
pub proof fn law_help_is_modal(a: AppView, key: KeyEvent)
    requires
        a.help_open,
    ensures
        key_handled(a, key) == (AppView {
            help_open: key.code != KeyCode::Char('?') && key.code != KeyCode::Esc,
            ..a
        }, true),
{
}

/// While a repository is being changed, no other is activated.
pub proof fn law_mutations_block_activation(a: AppView, root: Text)
    requires
        a.state.busy == Some(Busy::Mutation),
    ensures
        activated(a, root) == rejected(a),
        activated(a, root).active == a.active,
        activated(a, root).requests == a.requests,
{
}

/// Leaving a repository cancels what was shown there to be confirmed.
pub proof fn law_switching_cancels_previews(a: AppView, from: Text, to: Text)
    requires
        a.active == Some(from),
        from != to,
        a.state.busy != Some(Busy::Mutation),
    ensures
        ({
            let b = activated(a, to);
            &&& b.active == Some(to)
            &&& b.cached.contains_key(from)
            &&& b.cached[from].preview is None
            &&& b.cached[from].pending is None
            &&& b.cached[from].publish_plan is None
            &&& b.cached[from].carried is None
            &&& b.cached[from].discard_preview
        }),
{
}

/// Coming back to a repository finds it as it was left: its graph, what was selected, how
/// far it was scrolled and what was searched for. What was known is not asked for again.
pub proof fn law_switching_back_restores(a: AppView, from: Text, to: Text)
    requires
        a.active == Some(from),
        from != to,
        a.state.busy != Some(Busy::Mutation),
        a.cached.contains_key(to) ==> a.cached[to].busy != Some(Busy::Mutation),
    ensures
        ({
            let b = activated(a, to);
            let c = activated(b, from);
            &&& c.active == Some(from)
            &&& c.state.graph == a.state.graph
            &&& c.state.selected == a.state.selected
            &&& c.state.scroll == a.state.scroll
            &&& c.state.search.query == a.state.search.query
            &&& c.state.search.editing == a.state.search.editing
            &&& c.state.pr_links == a.state.pr_links
            &&& c.repository_search == a.repository_search
            &&& a.state.preview is None && !a.state.render_dirty ==> c.state.rendered
                == a.state.rendered
            &&& a.state.graph is Some ==> c.requests == b.requests
            &&& a.state.busy is Some ==> c.requests == b.requests
        }),
{
}

/// A preview that was under way when its repository was left does not come back with it.
pub proof fn law_cancelled_previews_do_not_reappear(
    a: AppView,
    from: Text,
    to: Text,
    response: OperationResultView,
)
    requires
        a.active == Some(from),
        from != to,
        a.state.busy == Some(Busy::Load),
        a.cached.contains_key(to) ==> a.cached[to].busy != Some(Busy::Mutation),
        response.repo == from,
        response.id == a.state.request_id,
        response.graph is Ok,
    ensures
        ({
            let back = activated(activated(a, to), from);
            let c = app_received(back, response);
            &&& c.state.preview is None
            &&& c.state.publish_plan is None
            &&& c.state.graph == Some(response.graph->Ok_0)
            &&& c.requests == back.requests
        }),
{
    let b = activated(a, to);
    let back = activated(b, from);
    assert(back.state.request_id == a.state.request_id);
    assert(back.state.discard_preview);
}

/// What comes of an operation on a repository that is not active is kept for it, without
/// being drawn and without changing what is shown.
pub proof fn law_late_results_are_kept(a: AppView, response: OperationResultView)
    requires
        a.active != Some(response.repo),
    ensures
        ({
            let b = app_received(a, response);
            &&& b.state == a.state
            &&& b.active == a.active
            &&& b.requests == a.requests
            &&& a.cached.contains_key(response.repo) ==> b.cached[response.repo].rendered
                == a.cached[response.repo].rendered
            &&& a.cached.contains_key(response.repo) && response.id
                == a.cached[response.repo].request_id && response.graph is Ok
                ==> b.cached[response.repo].graph == Some(response.graph->Ok_0)
            &&& forall|k: Text|
                k != response.repo ==> (#[trigger] b.cached.contains_key(k)
                    == a.cached.contains_key(k))
        }),
{
}

/// Results ask for nothing.
pub proof fn law_results_ask_for_nothing(a: AppView, response: OperationResultView)
    ensures
        app_received(a, response).requests == a.requests,
{
}

/// A move that could not be handed on waits to be confirmed again.
pub proof fn law_an_unsent_move_still_waits(a: AppView)
    requires
        is_free(a),
        a.state.pending is Some,
        a.next_request_id < u64::MAX,
    ensures
        ({
            let b = applied(a);
            let c = unsent(b, b.requests.last());
            &&& b.state.pending is None
            &&& b.state.busy == Some(Busy::Mutation)
            &&& c.state.pending == a.state.pending
            &&& c.state.busy is None
            &&& c.state.status_error
        }),
{
}

/// Moving the cursor keeps the preview of a publication, and cancels that of a move.
pub proof fn law_navigation_keeps_only_publications(a: AppView, amount: int)
    ensures
        a.state.publish_plan is Some ==> cursor_moved(a, amount).state.preview == a.state.preview
            && cursor_moved(a, amount).state.publish_plan == a.state.publish_plan,
        a.state.publish_plan is None ==> cursor_moved(a, amount).state.preview is None
            && cursor_moved(a, amount).state.pending is None,
        cursor_moved(a, amount).requests == a.requests,
{
}

/// What is confirmed is what was shown: a move before a publication, and either before a
/// checkout.
pub proof fn law_enter_confirms_what_is_shown(a: AppView)
    requires
        is_free(a),
        a.next_request_id < u64::MAX,
        a.state.pending is Some || a.state.publish_plan is Some,
    ensures
        entered(a).requests.len() == a.requests.len() + 1,
        a.state.pending is Some ==> entered(a).requests.last().operation == OperationView::Apply(
            a.state.pending->0,
        ),
        a.state.pending is None ==> entered(a).requests.last().operation
            == OperationView::PublishExecute(a.state.publish_plan->0),
        entered(a).state.busy == Some(Busy::Mutation),
{
}

/// The next match and the one before it lead back to where one was.
pub proof fn law_matches_lead_back(i: int, count: int)
    requires
        0 <= i < count,
    ensures
        0 <= match_place(Some(i), false, count) < count,
        0 <= match_place(Some(i), true, count) < count,
        match_place(Some(match_place(Some(i), false, count)), true, count) == i,
        match_place(Some(match_place(Some(i), true, count)), false, count) == i,
{
}

/// A list is scrolled so that the place can be seen, and no further than that takes.
pub proof fn law_scrolling_shows_the_place(scroll: usize, place: usize, height: int)
    requires
        0 < height <= u16::MAX,
        scroll + height <= usize::MAX,
    ensures
        scrolled(scroll, place as int, height) <= place,
        place < scrolled(scroll, place as int, height) + height,
        scroll <= place < scroll + height ==> scrolled(scroll, place as int, height) == scroll,
{
}

/// Drawing changes nothing but how far the lists are scrolled.
pub proof fn law_drawing_only_scrolls(a: AppView, areas: ScreenAreas)
    ensures
        ({
            let b = frame_drawn(a, areas).0;
            b == (AppView {
                repository_scroll: b.repository_scroll,
                state: StateView { scroll: b.state.scroll, ..a.state },
                ..a
            })
        }),
        areas.list.width == 0 ==> frame_drawn(a, areas).0.repository_scroll == a.repository_scroll,
        areas.graph.width == 0 && areas.graph.height == 0 ==> frame_drawn(a, areas).0.state.scroll
            == a.state.scroll,
{
}

/// While the help is open, no links are drawn over it.
pub proof fn law_help_hides_links(a: AppView, areas: ScreenAreas)
    requires
        a.help_open,
    ensures
        frame_drawn(a, areas).1.links.len() == 0,
{
}

} // verus!

//! What the interactive view keeps of each repository.

use crate::dict::Dict;
use crate::integrations::github::{LinkView, PullRequestLink};
use crate::order::{contains, copy, views};
use crate::stack::submit::{PlanView, SubmitPlan};
use crate::text::{copy_option, maybe, seen, texts, Text};
use crate::ui::event::{OperationResult, OperationResultView};
use crate::ui::model::{Graph, GraphView, MovePlan, MoveView};
use crate::ui::render::{
    attach_pr_links, lines_with_links, ranges_fit, render_graph, rendered, LineView,
    RenderedLine,
};
use crate::ui::sound::{lemma_sound_drawable, result_sound, sound};
use vstd::prelude::*;

verus! {

/// What an operation that is running does.
#[derive(Clone, Copy, Debug, PartialEq, Eq, Structural)]
pub enum Busy {
    /// It reads.
    Load,
    /// It changes the repository.
    Mutation,
}

/// A search: whether it is being typed, what for, and what matches.
#[derive(Debug, PartialEq, Eq)]
pub struct Search {
    pub editing: bool,
    pub query: String,
    pub matches: Vec<String>,
}

/// What a `Search` holds.
#[verifier::ext_equal]
pub struct SearchView {
    pub editing: bool,
    pub query: Text,
    pub matches: Seq<Text>,
}

impl View for Search {
    type V = SearchView;

    open spec fn view(&self) -> SearchView {
        SearchView { editing: self.editing, query: self.query@, matches: texts(self.matches@) }
    }
}

/// No search.
pub open spec fn no_search() -> SearchView {
    SearchView { editing: false, query: Seq::empty(), matches: Seq::empty() }
}

impl Default for Search {
    fn default() -> (r: Self)
        ensures
            r@ == no_search(),
    {
        let r = Search { editing: false, query: String::new(), matches: Vec::new() };
        assert(r@ =~= no_search());
        r
    }
}

/// What is kept of a repository.
pub struct RepositoryState {
    pub graph: Option<Graph>,
    /// The graph as it would be.
    pub preview: Option<Graph>,
    pub selected: Option<String>,
    /// The commit that is picked up to be moved.
    pub carried: Option<String>,
    /// The commits that move with it.
    pub carried_commits: Vec<String>,
    pub carry_substack: bool,
    /// A move that is shown and waits to be confirmed.
    pub pending: Option<MovePlan>,
    /// A publication that is shown and waits to be confirmed.
    pub publish_plan: Option<SubmitPlan>,
    pub search: Search,
    pub status: Option<String>,
    pub status_error: bool,
    pub busy: Option<Busy>,
    pub scroll: usize,
    pub rendered: Vec<RenderedLine>,
    pub pr_links: Dict<PullRequestLink>,
    /// The number of the last operation.
    pub request_id: u64,
    /// Whether a preview that comes is not to be shown any more.
    pub discard_preview: bool,
    pub render_dirty: bool,
}

/// What a `RepositoryState` holds.
#[verifier::ext_equal]
pub struct StateView {
    pub graph: Option<GraphView>,
    pub preview: Option<GraphView>,
    pub selected: Option<Text>,
    pub carried: Option<Text>,
    pub carried_commits: Seq<Text>,
    pub carry_substack: bool,
    pub pending: Option<MoveView>,
    pub publish_plan: Option<PlanView>,
    pub search: SearchView,
    pub status: Option<Text>,
    pub status_error: bool,
    pub busy: Option<Busy>,
    pub scroll: usize,
    pub rendered: Seq<LineView>,
    pub pr_links: Map<Text, LinkView>,
    pub request_id: u64,
    pub discard_preview: bool,
    pub render_dirty: bool,
}

impl View for RepositoryState {
    type V = StateView;

    open spec fn view(&self) -> StateView {
        StateView {
            graph: seen(self.graph),
            preview: seen(self.preview),
            selected: maybe(self.selected),
            carried: maybe(self.carried),
            carried_commits: texts(self.carried_commits@),
            carry_substack: self.carry_substack,
            pending: seen(self.pending),
            publish_plan: seen(self.publish_plan),
            search: self.search@,
            status: maybe(self.status),
            status_error: self.status_error,
            busy: self.busy,
            scroll: self.scroll,
            rendered: views(self.rendered@),
            pr_links: self.pr_links@,
            request_id: self.request_id,
            discard_preview: self.discard_preview,
            render_dirty: self.render_dirty,
        }
    }
}

/// What is kept of a repository of which nothing is known.
pub open spec fn fresh_state() -> StateView {
    StateView {
        graph: None,
        preview: None,
        selected: None,
        carried: None,
        carried_commits: Seq::empty(),
        carry_substack: false,
        pending: None,
        publish_plan: None,
        search: no_search(),
        status: None,
        status_error: false,
        busy: None,
        scroll: 0,
        rendered: Seq::empty(),
        pr_links: Map::empty(),
        request_id: 0,
        discard_preview: false,
        render_dirty: false,
    }
}

impl Default for RepositoryState {
    fn default() -> (r: Self)
        ensures
            r@ == fresh_state(),
    {
        let r = RepositoryState {
            graph: None,
            preview: None,
            selected: None,
            carried: None,
            carried_commits: Vec::new(),
            carry_substack: false,
            pending: None,
            publish_plan: None,
            search: Search::default(),
            status: None,
            status_error: false,
            busy: None,
            scroll: 0,
            rendered: Vec::new(),
            pr_links: Dict::new(),
            request_id: 0,
            discard_preview: false,
            render_dirty: false,
        };
        assert(r@ =~= fresh_state());
        r
    }
}

/// Whether a graph that may be there can be drawn.
pub open spec fn may_be_drawn(graph: Option<GraphView>) -> bool {
    match graph {
        Some(graph) => sound(graph),
        None => true,
    }
}

/// What holds of all that is kept: the graphs can be drawn, and the ranges of what is drawn
/// stand in its lines.
pub open spec fn state_well(s: StateView) -> bool {
    &&& may_be_drawn(s.graph)
    &&& may_be_drawn(s.preview)
    &&& lines_fit(s.rendered)
}

/// The ranges of lines stand in them.
pub open spec fn lines_fit(lines: Seq<LineView>) -> bool {
    forall|i: int| 0 <= i < lines.len() ==> ranges_fit((#[trigger] lines[i]).text, lines[i].styles)
}

/// The graph that is shown.
pub open spec fn active_graph(s: StateView) -> Option<GraphView> {
    match s.preview {
        Some(graph) => Some(graph),
        None => s.graph,
    }
}

/// The commits that are shown, in order.
pub open spec fn shown_order(s: StateView) -> Seq<Text> {
    match active_graph(s) {
        Some(graph) => graph.order,
        None => Seq::empty(),
    }
}

/// The lines of the graph that is shown.
pub open spec fn drawn_lines(s: StateView) -> Seq<LineView> {
    match active_graph(s) {
        Some(graph) => lines_with_links(rendered(graph), graph.commits, s.pr_links),
        None => Seq::empty(),
    }
}

/// With the graph that is shown drawn anew.
pub open spec fn redrawn(s: StateView) -> StateView {
    StateView { rendered: drawn_lines(s), render_dirty: false, ..s }
}

/// The commit to select: the one that was selected, where it is still shown, or the first.
pub open spec fn kept_selection(selected: Option<Text>, ids: Seq<Text>) -> Option<Text> {
    match selected {
        Some(id) => if ids.contains(id) {
            Some(id)
        } else {
            first_of(ids)
        },
        None => first_of(ids),
    }
}

/// The first of some texts.
pub open spec fn first_of(ids: Seq<Text>) -> Option<Text> {
    if ids.len() > 0 {
        Some(ids[0])
    } else {
        None
    }
}

/// With the graph that an operation ended with. What was to be confirmed is done with once
/// the repository is changed.
pub open spec fn with_graph(
    s: StateView,
    graph: GraphView,
    preview: Option<GraphView>,
    plan: Option<PlanView>,
    error: Option<Text>,
) -> StateView {
    let mutation = s.busy == Some(Busy::Mutation);
    let next = StateView {
        busy: None,
        graph: Some(graph),
        preview,
        publish_plan: if mutation {
            None
        } else {
            plan
        },
        carried: if mutation {
            None
        } else {
            s.carried
        },
        carried_commits: if mutation {
            Seq::empty()
        } else {
            s.carried_commits
        },
        pending: if mutation {
            None
        } else {
            s.pending
        },
        status: error,
        status_error: error is Some,
        ..s
    };
    StateView { selected: kept_selection(s.selected, shown_order(next)), ..next }
}

/// With the error of an operation that ended without a graph.
pub open spec fn without_graph(
    s: StateView,
    error: Text,
    operation_error: Option<Text>,
    keep_links: bool,
) -> StateView {
    StateView {
        busy: None,
        pr_links: if keep_links {
            s.pr_links
        } else {
            Map::empty()
        },
        status: match operation_error {
            Some(error) => Some(error),
            None => Some(error),
        },
        status_error: true,
        ..s
    }
}

/// With the pull requests that an operation read. That they could not be read is told
/// only where there is nothing else to tell.
pub open spec fn with_pr_links(
    s: StateView,
    links: Option<Result<Map<Text, LinkView>, Text>>,
) -> StateView {
    match links {
        None => s,
        Some(Ok(links)) => StateView { pr_links: links, ..s },
        Some(Err(error)) => if s.status is None {
            StateView {
                pr_links: Map::empty(),
                status: Some(error),
                status_error: false,
                ..s
            }
        } else {
            StateView { pr_links: Map::empty(), ..s }
        },
    }
}

/// With what came of an operation. What came of any operation but the last is passed over,
/// and so is a preview that is not wanted any more.
pub open spec fn state_received(
    s: StateView,
    response: OperationResultView,
    active: bool,
) -> StateView {
    if response.id != s.request_id {
        s
    } else {
        let wanted = !s.discard_preview && active;
        let told = match response.graph {
            Ok(graph) => with_graph(
                s,
                graph,
                if wanted {
                    response.preview
                } else {
                    None
                },
                if wanted {
                    response.publish_plan
                } else {
                    None
                },
                response.operation_error,
            ),
            Err(error) => without_graph(
                s,
                error,
                response.operation_error,
                response.pr_links is Some,
            ),
        };
        let next = StateView { render_dirty: true, ..with_pr_links(told, response.pr_links) };
        if active {
            redrawn(next)
        } else {
            next
        }
    }
}

impl RepositoryState {
    /// The graph that is shown.
    pub fn active_graph(&self) -> (r: Option<&Graph>)
        ensures
            match r {
                Some(graph) => active_graph(self@) == Some(graph@),
                None => active_graph(self@) is None,
            },
    {
        match &self.preview {
            Some(graph) => Some(graph),
            None => match &self.graph {
                Some(graph) => Some(graph),
                None => None,
            },
        }
    }

    /// The commits that are shown, in order.
    pub fn graph_ids(&self) -> (r: Vec<String>)
        ensures
            texts(r@) == shown_order(self@),
    {
        match self.active_graph() {
            Some(graph) => copy(&graph.order),
            None => {
                let none: Vec<String> = Vec::new();
                assert(texts(none@) =~= Seq::<Text>::empty());
                none
            },
        }
    }

    /// Draws the graph that is shown anew.
    pub fn update_rendered(&mut self)
        requires
            may_be_drawn(active_graph(old(self)@)),
        ensures
            final(self)@ == redrawn(old(self)@),
            lines_fit(final(self)@.rendered),
    {
        let ghost s = self@;
        let lines = match self.active_graph() {
            Some(graph) => {
                proof {
                    lemma_sound_drawable(graph@);
                }
                let mut lines = render_graph(graph);
                let ghost bare = views(lines@);
                attach_pr_links(&mut lines, graph, &self.pr_links);
                proof {
                    let after = views(lines@);
                    assert forall|i: int| 0 <= i < after.len() implies ranges_fit(
                        (#[trigger] after[i]).text,
                        after[i].styles,
                    ) by {
                        assert(after[i].text == bare[i].text);
                        assert(after[i].styles == bare[i].styles);
                    }
                }
                lines
            },
            None => Vec::new(),
        };
        assert(views(lines@) =~= drawn_lines(s));
        self.rendered = lines;
        self.render_dirty = false;
        assert(self@ =~= redrawn(s));
    }

    /// Takes in what came of an operation, whether the repository is active or not.
    pub fn receive(&mut self, response: OperationResult, active: bool)
        requires
            state_well(old(self)@),
            result_sound(response@),
        ensures
            final(self)@ == state_received(old(self)@, response@, active),
            state_well(final(self)@),
    {
        let ghost s = self@;
        let ghost v = response@;
        let OperationResult {
            repo: _,
            id,
            graph,
            preview,
            publish_plan,
            pr_links,
            operation_error,
        } = response;
        if id != self.request_id {
            return ;
        }
        let wanted = !self.discard_preview && active;
        let mutation = match self.busy {
            Some(Busy::Mutation) => true,
            _ => false,
        };
        self.busy = None;
        match graph {
            Ok(graph) => {
                let old_selected = copy_option(&self.selected);
                self.graph = Some(graph);
                if wanted {
                    self.preview = preview;
                    self.publish_plan = publish_plan;
                } else {
                    self.preview = None;
                    self.publish_plan = None;
                }
                if mutation {
                    self.carried = None;
                    self.carried_commits = Vec::new();
                    assert(texts(self.carried_commits@) =~= Seq::<Text>::empty());
                    self.pending = None;
                    self.publish_plan = None;
                }
                let ids = self.graph_ids();
                assert(texts(ids@).len() == ids.len());
                let kept = match old_selected {
                    Some(id) => if contains(&ids, id.as_str()) {
                        Some(id)
                    } else {
                        None
                    },
                    None => None,
                };
                self.selected =
                match kept {
                    Some(id) => Some(id),
                    None => if ids.len() > 0 {
                        assert(texts(ids@)[0] == ids@[0]@);
                        Some(ids[0].clone())
                    } else {
                        None
                    },
                };
                self.status_error = operation_error.is_some();
                self.status = operation_error;
                assert(self@ =~= with_graph(
                    s,
                    v.graph->Ok_0,
                    if wanted {
                        v.preview
                    } else {
                        None
                    },
                    if wanted {
                        v.publish_plan
                    } else {
                        None
                    },
                    v.operation_error,
                ));
            },
            Err(error) => {
                if pr_links.is_none() {
                    self.pr_links = Dict::new();
                    assert(self.pr_links@ =~= Map::<Text, LinkView>::empty());
                }
                self.status = match operation_error {
                    Some(error) => Some(error),
                    None => Some(error),
                };
                self.status_error = true;
                assert(self@ =~= without_graph(
                    s,
                    v.graph->Err_0,
                    v.operation_error,
                    v.pr_links is Some,
                ));
            },
        }
        let ghost told = self@;
        match pr_links {
            Some(Ok(links)) => {
                self.pr_links = links;
            },
            Some(Err(error)) => {
                self.pr_links = Dict::new();
                assert(self.pr_links@ =~= Map::<Text, LinkView>::empty());
                if self.status.is_none() {
                    self.status = Some(error);
                    self.status_error = false;
                }
            },
            None => {},
        }
        assert(self@ =~= with_pr_links(told, v.pr_links));
        self.render_dirty = true;
        if active {
            self.update_rendered();
        }
    }
}

/// What came of an operation that is not the last one asked for changes nothing.
pub proof fn law_stale_results_are_passed_over(
    s: StateView,
    response: OperationResultView,
    active: bool,
)
    requires
        response.id != s.request_id,
    ensures
        state_received(s, response, active) == s,
{
}

/// What came of the last operation ends it, and shows a preview only where the repository
/// is active and the preview was not cancelled meanwhile.
pub proof fn law_results_end_the_operation(
    s: StateView,
    response: OperationResultView,
    active: bool,
)
    requires
        response.id == s.request_id,
    ensures
        ({
            let next = state_received(s, response, active);
            &&& next.busy is None
            &&& response.graph is Ok ==> next.graph == Some(response.graph->Ok_0)
            &&& response.graph is Err ==> next.graph == s.graph && next.preview == s.preview
                && next.status_error
            &&& response.graph is Ok && (!active || s.discard_preview) ==> next.preview is None
                && next.publish_plan is None
            &&& !active ==> next.rendered == s.rendered
            &&& next.search == s.search
            &&& next.scroll == s.scroll
        }),
{
}

/// The links of pull requests change only with a result that brings some, and are dropped
/// where the graph could not be read.
pub proof fn law_links_stay(s: StateView, response: OperationResultView, active: bool)
    requires
        response.pr_links is None,
        response.graph is Ok,
    ensures
        state_received(s, response, active).pr_links == s.pr_links,
{
}

/// What is selected behind an operation is shown, where anything is.
pub proof fn law_selection_is_shown(s: StateView, response: OperationResultView, active: bool)
    requires
        response.id == s.request_id,
        response.graph is Ok,
    ensures
        ({
            let next = state_received(s, response, active);
            match next.selected {
                Some(id) => shown_order(next).contains(id),
                None => shown_order(next).len() == 0,
            }
        }),
{
    let next = state_received(s, response, active);
    if shown_order(next).len() > 0 {
        assert(shown_order(next).contains(shown_order(next)[0]));
    }
}

} // verus!

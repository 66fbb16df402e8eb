//! The operations that run beside the interactive view, one after another.

use crate::dict::Dict;
use crate::integrations::github::{LinkView, PullRequestLink};
use crate::order::views;
use crate::stack::submit::{OptionsView, PlanView, SubmitOptions, SubmitPlan};
use crate::text::{maybe, result_of, seen, texts, Text};
use crate::ui::keys::TerminalEvent;
use crate::ui::links::{
    displayed_heads, displayed_remote_heads, links_by_branch, remote_pr_links,
};
use crate::ui::model::{Graph, GraphView, MovePlan, MoveView};
use crate::ui::preview::published;
use vstd::prelude::*;

verus! {

/// An operation on a repository.
pub enum Operation {
    /// Read the graph.
    Load,
    /// Read the graph and the pull requests of its branches.
    Refresh,
    /// Check out a commit, at a branch where one is given.
    Checkout { revision: String, branch: Option<String> },
    /// Carry out a move.
    Apply(MovePlan),
    /// Plan a publication.
    PublishPreview(SubmitOptions),
    /// Carry out a publication.
    PublishExecute(SubmitPlan),
    /// Do nothing more.
    Stop,
}

/// What an `Operation` holds.
#[verifier::ext_equal]
pub enum OperationView {
    Load,
    Refresh,
    Checkout { revision: Text, branch: Option<Text> },
    Apply(MoveView),
    PublishPreview(OptionsView),
    PublishExecute(PlanView),
    Stop,
}

impl View for Operation {
    type V = OperationView;

    open spec fn view(&self) -> OperationView {
        match *self {
            Operation::Load => OperationView::Load,
            Operation::Refresh => OperationView::Refresh,
            Operation::Checkout { revision, branch } => OperationView::Checkout {
                revision: revision@,
                branch: maybe(branch),
            },
            Operation::Apply(plan) => OperationView::Apply(plan@),
            Operation::PublishPreview(options) => OperationView::PublishPreview(options@),
            Operation::PublishExecute(plan) => OperationView::PublishExecute(plan@),
            Operation::Stop => OperationView::Stop,
        }
    }
}

/// An operation to be run, with a number by which its result is known.
pub struct OperationRequest {
    pub options: SubmitOptions,
    pub id: u64,
    pub operation: Operation,
}

/// What an `OperationRequest` holds.
#[verifier::ext_equal]
pub struct RequestView {
    pub options: OptionsView,
    pub id: u64,
    pub operation: OperationView,
}

impl View for OperationRequest {
    type V = RequestView;

    open spec fn view(&self) -> RequestView {
        RequestView { options: self.options@, id: self.id, operation: self.operation@ }
    }
}

/// What came of an operation, and the graph behind it.
pub struct OperationResult {
    pub repo: String,
    pub id: u64,
    pub graph: Result<Graph, String>,
    pub preview: Option<Graph>,
    pub publish_plan: Option<SubmitPlan>,
    pub pr_links: Option<Result<Dict<PullRequestLink>, String>>,
    pub operation_error: Option<String>,
}

/// What an `OperationResult` holds.
#[verifier::ext_equal]
pub struct OperationResultView {
    pub repo: Text,
    pub id: u64,
    pub graph: Result<GraphView, Text>,
    pub preview: Option<GraphView>,
    pub publish_plan: Option<PlanView>,
    pub pr_links: Option<Result<Map<Text, LinkView>, Text>>,
    pub operation_error: Option<Text>,
}

/// What pull requests that may have been read hold.
pub open spec fn links_seen(links: Option<Result<Dict<PullRequestLink>, String>>) -> Option<
    Result<Map<Text, LinkView>, Text>,
> {
    match links {
        Some(links) => Some(result_of(links)),
        None => None,
    }
}

impl View for OperationResult {
    type V = OperationResultView;

    open spec fn view(&self) -> OperationResultView {
        OperationResultView {
            repo: self.repo@,
            id: self.id,
            graph: result_of(self.graph),
            preview: seen(self.preview),
            publish_plan: seen(self.publish_plan),
            pr_links: links_seen(self.pr_links),
            operation_error: maybe(self.operation_error),
        }
    }
}

/// How far an operation has come.
pub enum WorkStage {
    /// A commit is being checked out, or a move is being carried out.
    Acting,
    /// A publication is being planned.
    Planning,
    /// The graph is being read, to show what a publication would change.
    Previewing(SubmitPlan),
    /// A publication is being carried out, on a remote.
    Publishing(String),
    /// The graph is being read, and then the pull requests.
    Refreshing,
    /// The pull requests of a graph are being read.
    Linking(Graph),
    /// The graph is being read, which is the last step.
    Loading {
        error: Option<String>,
        links: Option<Result<Dict<PullRequestLink>, String>>,
    },
}

/// What a `WorkStage` holds.
#[verifier::ext_equal]
pub enum StageView {
    Acting,
    Planning,
    Previewing(PlanView),
    Publishing(Text),
    Refreshing,
    Linking(GraphView),
    Loading { error: Option<Text>, links: Option<Result<Map<Text, LinkView>, Text>> },
}

impl View for WorkStage {
    type V = StageView;

    open spec fn view(&self) -> StageView {
        match *self {
            WorkStage::Acting => StageView::Acting,
            WorkStage::Planning => StageView::Planning,
            WorkStage::Previewing(plan) => StageView::Previewing(plan@),
            WorkStage::Publishing(remote) => StageView::Publishing(remote@),
            WorkStage::Refreshing => StageView::Refreshing,
            WorkStage::Linking(graph) => StageView::Linking(graph@),
            WorkStage::Loading { error, links } => StageView::Loading {
                error: maybe(error),
                links: links_seen(links),
            },
        }
    }
}

/// An operation that is under way.
pub struct Work {
    pub options: SubmitOptions,
    pub id: u64,
    pub stage: WorkStage,
}

/// What a `Work` holds.
#[verifier::ext_equal]
pub struct WorkView {
    pub options: OptionsView,
    pub id: u64,
    pub stage: StageView,
}

impl View for Work {
    type V = WorkView;

    open spec fn view(&self) -> WorkView {
        WorkView { options: self.options@, id: self.id, stage: self.stage@ }
    }
}

/// What is to be done next.
pub enum WorkAction {
    /// Read the graph of stacks on a branch of a remote.
    LoadGraph { remote: String, base: String },
    /// Read the pull requests of branches.
    LoadLinks(Vec<String>),
    /// Check out a commit, at a branch where one is given.
    Checkout { revision: String, branch: Option<String> },
    /// Check out a commit, at its branch where it has just one.
    CheckoutBranch(String),
    /// Carry out a move.
    Apply(MovePlan),
    /// Plan a publication.
    Plan(SubmitOptions),
    /// Carry out a publication.
    Publish(SubmitPlan),
}

/// What a `WorkAction` holds.
#[verifier::ext_equal]
pub enum ActionView {
    LoadGraph { remote: Text, base: Text },
    LoadLinks(Seq<Text>),
    Checkout { revision: Text, branch: Option<Text> },
    CheckoutBranch(Text),
    Apply(MoveView),
    Plan(OptionsView),
    Publish(PlanView),
}

impl View for WorkAction {
    type V = ActionView;

    open spec fn view(&self) -> ActionView {
        match *self {
            WorkAction::LoadGraph { remote, base } => ActionView::LoadGraph {
                remote: remote@,
                base: base@,
            },
            WorkAction::LoadLinks(heads) => ActionView::LoadLinks(texts(heads@)),
            WorkAction::Checkout { revision, branch } => ActionView::Checkout {
                revision: revision@,
                branch: maybe(branch),
            },
            WorkAction::CheckoutBranch(revision) => ActionView::CheckoutBranch(revision@),
            WorkAction::Apply(plan) => ActionView::Apply(plan@),
            WorkAction::Plan(options) => ActionView::Plan(options@),
            WorkAction::Publish(plan) => ActionView::Publish(plan@),
        }
    }
}

/// What came of what was to be done.
pub enum WorkEvent {
    Graph(Result<Graph, String>),
    Links(Result<Vec<PullRequestLink>, String>),
    Acted(Result<(), String>),
    Planned(Result<SubmitPlan, String>),
    Published(Result<Vec<PullRequestLink>, String>),
}

/// What a `WorkEvent` holds.
#[verifier::ext_equal]
pub enum WorkEventView {
    Graph(Result<GraphView, Text>),
    Links(Result<Seq<LinkView>, Text>),
    Acted(Result<(), Text>),
    Planned(Result<PlanView, Text>),
    Published(Result<Seq<LinkView>, Text>),
}

/// What a list of pull requests holds, where there is one.
pub open spec fn link_list(r: Result<Vec<PullRequestLink>, String>) -> Result<Seq<LinkView>, Text> {
    match r {
        Ok(links) => Ok(views(links@)),
        Err(error) => Err(error@),
    }
}

impl View for WorkEvent {
    type V = WorkEventView;

    open spec fn view(&self) -> WorkEventView {
        match *self {
            WorkEvent::Graph(graph) => WorkEventView::Graph(result_of(graph)),
            WorkEvent::Links(links) => WorkEventView::Links(link_list(links)),
            WorkEvent::Acted(r) => WorkEventView::Acted(result_of(r)),
            WorkEvent::Planned(plan) => WorkEventView::Planned(result_of(plan)),
            WorkEvent::Published(links) => WorkEventView::Published(link_list(links)),
        }
    }
}

/// What follows: more to be done, or a result.
pub enum WorkOutput {
    Next(Work, WorkAction),
    Done(OperationResult),
}

/// What a `WorkOutput` holds.
#[verifier::ext_equal]
pub enum WorkOutputView {
    Next(WorkView, ActionView),
    Done(OperationResultView),
}

impl View for WorkOutput {
    type V = WorkOutputView;

    open spec fn view(&self) -> WorkOutputView {
        match *self {
            WorkOutput::Next(work, action) => WorkOutputView::Next(work@, action@),
            WorkOutput::Done(result) => WorkOutputView::Done(result@),
        }
    }
}

/// The reading of the graph that options ask for.
pub open spec fn load_for(options: OptionsView) -> ActionView {
    ActionView::LoadGraph { remote: options.remote, base: options.base }
}

/// What an operation begins with.
pub open spec fn first_step(options: OptionsView, operation: OperationView) -> Option<
    (StageView, ActionView),
> {
    match operation {
        OperationView::Load => Some(
            (StageView::Loading { error: None, links: None }, load_for(options)),
        ),
        OperationView::Refresh => Some((StageView::Refreshing, load_for(options))),
        OperationView::Checkout { revision, branch } => Some(
            (StageView::Acting, ActionView::Checkout { revision, branch }),
        ),
        OperationView::Apply(plan) => Some((StageView::Acting, ActionView::Apply(plan))),
        OperationView::PublishPreview(wanted) => Some(
            (StageView::Planning, ActionView::Plan(wanted)),
        ),
        OperationView::PublishExecute(plan) => Some(
            (StageView::Publishing(plan.options.remote), ActionView::Publish(plan)),
        ),
        OperationView::Stop => None,
    }
}

/// Computes `load_for`.
fn load_with(options: &SubmitOptions) -> (r: WorkAction)
    ensures
        r@ == load_for(options@),
{
    WorkAction::LoadGraph { remote: options.remote.clone(), base: options.base.clone() }
}

/// Begins an operation, unless it is the one that ends the work.
pub fn begin(request: OperationRequest) -> (r: Option<(Work, WorkAction)>)
    ensures
        match r {
            Some((work, action)) => {
                &&& first_step(request@.options, request@.operation) == Some((work@.stage, action@))
                &&& work@.options == request@.options
                &&& work@.id == request@.id
            },
            None => first_step(request@.options, request@.operation) is None,
        },
{
    let OperationRequest { options, id, operation } = request;
    let (stage, action) = match operation {
        Operation::Load => (WorkStage::Loading { error: None, links: None }, load_with(&options)),
        Operation::Refresh => (WorkStage::Refreshing, load_with(&options)),
        Operation::Checkout { revision, branch } => (
            WorkStage::Acting,
            WorkAction::Checkout { revision, branch },
        ),
        Operation::Apply(plan) => (WorkStage::Acting, WorkAction::Apply(plan)),
        Operation::PublishPreview(wanted) => (WorkStage::Planning, WorkAction::Plan(wanted)),
        Operation::PublishExecute(plan) => (
            WorkStage::Publishing(plan.options.remote.clone()),
            WorkAction::Publish(plan),
        ),
        Operation::Stop => {
            return None;
        },
    };
    Some((Work { options, id, stage }, action))
}

/// Whether an event answers what was to be done.
pub open spec fn answers(stage: StageView, event: WorkEventView) -> bool {
    match stage {
        StageView::Acting => event is Acted,
        StageView::Planning => event is Planned,
        StageView::Previewing(_) => event is Graph,
        StageView::Publishing(_) => event is Published,
        StageView::Refreshing => event is Graph,
        StageView::Linking(_) => event is Links,
        StageView::Loading { .. } => event is Graph,
    }
}

/// A result that holds a graph and nothing else.
pub open spec fn plain_result(work: WorkView, graph: Result<GraphView, Text>) -> OperationResultView {
    OperationResultView {
        repo: work.options.repo,
        id: work.id,
        graph,
        preview: None,
        publish_plan: None,
        pr_links: None,
        operation_error: None,
    }
}

/// An operation in its last step, the reading of the graph.
pub open spec fn last_step(
    work: WorkView,
    error: Option<Text>,
    links: Option<Result<Map<Text, LinkView>, Text>>,
) -> WorkOutputView {
    WorkOutputView::Next(
        WorkView { stage: StageView::Loading { error, links }, ..work },
        load_for(work.options),
    )
}

/// The error of a result.
pub open spec fn error_of<T>(r: Result<T, Text>) -> Option<Text> {
    match r {
        Ok(_) => None,
        Err(error) => Some(error),
    }
}

/// What follows an event.
pub open spec fn worked(work: WorkView, event: WorkEventView) -> WorkOutputView {
    match (work.stage, event) {
        (StageView::Loading { error, links }, WorkEventView::Graph(graph)) => WorkOutputView::Done(
            OperationResultView {
                pr_links: links,
                operation_error: error,
                ..plain_result(work, graph)
            },
        ),
        (StageView::Refreshing, WorkEventView::Graph(Ok(graph))) => WorkOutputView::Next(
            WorkView { stage: StageView::Linking(graph), ..work },
            ActionView::LoadLinks(displayed_heads(graph, work.options.remote)),
        ),
        (StageView::Refreshing, WorkEventView::Graph(Err(error))) => WorkOutputView::Done(
            plain_result(work, Err(error)),
        ),
        (StageView::Linking(graph), WorkEventView::Links(links)) => WorkOutputView::Done(
            OperationResultView {
                pr_links: Some(
                    match links {
                        Ok(links) => Ok(links_by_branch(work.options.remote, links)),
                        Err(error) => Err("PR links unavailable: "@ + error),
                    },
                ),
                ..plain_result(work, Ok(graph))
            },
        ),
        (StageView::Acting, WorkEventView::Acted(r)) => last_step(work, error_of(r), None),
        (StageView::Planning, WorkEventView::Planned(Ok(plan))) => WorkOutputView::Next(
            WorkView { stage: StageView::Previewing(plan), ..work },
            load_for(work.options),
        ),
        (StageView::Planning, WorkEventView::Planned(Err(error))) => last_step(
            work,
            Some(error),
            None,
        ),
        (StageView::Previewing(plan), WorkEventView::Graph(Ok(graph))) => WorkOutputView::Done(
            match published(graph, plan) {
                Ok(preview) => OperationResultView {
                    preview: Some(preview),
                    publish_plan: Some(plan),
                    ..plain_result(work, Ok(graph))
                },
                Err(error) => OperationResultView {
                    operation_error: Some(error),
                    ..plain_result(work, Ok(graph))
                },
            },
        ),
        (StageView::Previewing(_), WorkEventView::Graph(Err(error))) => WorkOutputView::Done(
            OperationResultView {
                operation_error: Some(error),
                ..plain_result(work, Err(error))
            },
        ),
        (StageView::Publishing(remote), WorkEventView::Published(Ok(links))) => last_step(
            work,
            None,
            Some(Ok(links_by_branch(remote, links))),
        ),
        (StageView::Publishing(_), WorkEventView::Published(Err(error))) => last_step(
            work,
            Some(error),
            None,
        ),
        _ => arbitrary(),
    }
}

/// A result that holds a graph and nothing else.
fn result_with(options: SubmitOptions, id: u64, graph: Result<Graph, String>) -> (r:
    OperationResult)
    ensures
        r@.repo == options@.repo,
        r@.id == id,
        r@.graph == result_of(graph),
        r@.preview is None,
        r@.publish_plan is None,
        r@.pr_links is None,
        r@.operation_error is None,
{
    OperationResult {
        repo: options.repo,
        id,
        graph,
        preview: None,
        publish_plan: None,
        pr_links: None,
        operation_error: None,
    }
}

/// Goes on with an operation, from what came of its last step.
pub fn operation_worker(work: Work, event: WorkEvent) -> (r: WorkOutput)
    requires
        answers(work@.stage, event@),
    ensures
        r@ == worked(work@, event@),
{
    let ghost w = work@;
    let Work { options, id, stage } = work;
    let action = load_with(&options);
    match (stage, event) {
        (WorkStage::Loading { error, links }, WorkEvent::Graph(graph)) => {
            let mut result = result_with(options, id, graph);
            result.pr_links = links;
            result.operation_error = error;
            WorkOutput::Done(result)
        },
        (WorkStage::Refreshing, WorkEvent::Graph(Ok(graph))) => {
            let heads = displayed_remote_heads(&graph, options.remote.as_str());
            WorkOutput::Next(
                Work { options, id, stage: WorkStage::Linking(graph) },
                WorkAction::LoadLinks(heads),
            )
        },
        (WorkStage::Refreshing, WorkEvent::Graph(Err(error))) => WorkOutput::Done(
            result_with(options, id, Err(error)),
        ),
        (WorkStage::Linking(graph), WorkEvent::Links(links)) => {
            let found = match links {
                Ok(links) => Ok(remote_pr_links(options.remote.as_str(), &links)),
                Err(error) => Err("PR links unavailable: ".to_owned().concat(error.as_str())),
            };
            let mut result = result_with(options, id, Ok(graph));
            result.pr_links = Some(found);
            WorkOutput::Done(result)
        },
        (WorkStage::Acting, WorkEvent::Acted(done)) => {
            let error = match done {
                Ok(()) => None,
                Err(error) => Some(error),
            };
            WorkOutput::Next(
                Work { options, id, stage: WorkStage::Loading { error, links: None } },
                action,
            )
        },
        (WorkStage::Planning, WorkEvent::Planned(Ok(plan))) => WorkOutput::Next(
            Work { options, id, stage: WorkStage::Previewing(plan) },
            action,
        ),
        (WorkStage::Planning, WorkEvent::Planned(Err(error))) => WorkOutput::Next(
            Work { options, id, stage: WorkStage::Loading { error: Some(error), links: None } },
            action,
        ),
        (WorkStage::Previewing(plan), WorkEvent::Graph(Ok(graph))) => {
            match graph.publish_preview(&plan) {
                Ok(preview) => {
                    let mut result = result_with(options, id, Ok(graph));
                    result.preview = Some(preview);
                    result.publish_plan = Some(plan);
                    WorkOutput::Done(result)
                },
                Err(error) => {
                    let mut result = result_with(options, id, Ok(graph));
                    result.operation_error = Some(error);
                    WorkOutput::Done(result)
                },
            }
        },
        (WorkStage::Previewing(_), WorkEvent::Graph(Err(error))) => {
            let mut result = result_with(options, id, Err(error.clone()));
            result.operation_error = Some(error);
            WorkOutput::Done(result)
        },
        (WorkStage::Publishing(remote), WorkEvent::Published(Ok(links))) => {
            let found = remote_pr_links(remote.as_str(), &links);
            WorkOutput::Next(
                Work {
                    options,
                    id,
                    stage: WorkStage::Loading { error: None, links: Some(Ok(found)) },
                },
                action,
            )
        },
        (WorkStage::Publishing(_), WorkEvent::Published(Err(error))) => WorkOutput::Next(
            Work { options, id, stage: WorkStage::Loading { error: Some(error), links: None } },
            action,
        ),
        (stage, event) => {
            proof {
                assert(false);
            }
            WorkOutput::Next(Work { options, id, stage }, action)
        },
    }
}

/// How many steps an operation still takes at most.
pub open spec fn steps_left(stage: StageView) -> nat {
    match stage {
        StageView::Acting => 2,
        StageView::Planning => 2,
        StageView::Publishing(_) => 2,
        StageView::Refreshing => 2,
        StageView::Previewing(_) => 1,
        StageView::Linking(_) => 1,
        StageView::Loading { .. } => 1,
    }
}

/// Every step brings an operation closer to its end, and keeps what it was asked for:
/// the result is known by the number and the repository of the request.
pub proof fn law_work_ends(work: WorkView, event: WorkEventView)
    requires
        answers(work.stage, event),
    ensures
        match worked(work, event) {
            WorkOutputView::Next(next, _) => {
                &&& next.options == work.options
                &&& next.id == work.id
                &&& steps_left(next.stage) < steps_left(work.stage)
            },
            WorkOutputView::Done(result) => {
                &&& result.repo == work.options.repo
                &&& result.id == work.id
            },
        },
{
}

/// A preview of a publication comes with the plan that it shows, with the graph that it
/// was made of, and without an error.
pub proof fn law_preview_has_a_plan(work: WorkView, event: WorkEventView)
    requires
        answers(work.stage, event),
        worked(work, event) is Done,
        worked(work, event)->Done_0.preview is Some,
    ensures
        ({
            let result = worked(work, event)->Done_0;
            &&& result.operation_error is None
            &&& result.graph is Ok
            &&& result.publish_plan is Some
            &&& published(result.graph->Ok_0, result.publish_plan->0) == Ok::<GraphView, Text>(
                result.preview->0,
            )
        }),
{
}

/// What may be asked of the worker of one repository.
pub enum Request {
    Load,
    Checkout(String),
    Apply(MovePlan),
    PublishPreview(SubmitOptions),
    PublishExecute(SubmitPlan),
    Stop,
}

/// What a `Request` asks for first.
pub open spec fn first_answer(options: OptionsView, request: Request) -> Option<
    (StageView, ActionView),
> {
    match request {
        Request::Load => first_step(options, OperationView::Load),
        Request::Checkout(revision) => Some(
            (StageView::Acting, ActionView::CheckoutBranch(revision@)),
        ),
        Request::Apply(plan) => first_step(options, OperationView::Apply(plan@)),
        Request::PublishPreview(wanted) => first_step(
            options,
            OperationView::PublishPreview(wanted@),
        ),
        Request::PublishExecute(plan) => first_step(options, OperationView::PublishExecute(plan@)),
        Request::Stop => None,
    }
}

/// What the worker of one repository answers.
pub struct Response {
    pub graph: Result<Graph, String>,
    pub preview: Option<Graph>,
    pub publish_plan: Option<SubmitPlan>,
    pub operation_error: Option<String>,
}

/// What a `Response` holds.
#[verifier::ext_equal]
pub struct ResponseView {
    pub graph: Result<GraphView, Text>,
    pub preview: Option<GraphView>,
    pub publish_plan: Option<PlanView>,
    pub operation_error: Option<Text>,
}

impl View for Response {
    type V = ResponseView;

    open spec fn view(&self) -> ResponseView {
        ResponseView {
            graph: result_of(self.graph),
            preview: seen(self.preview),
            publish_plan: seen(self.publish_plan),
            operation_error: maybe(self.operation_error),
        }
    }
}

/// Begins what is asked of the worker of one repository, unless that is to end.
pub fn begin_request(options: SubmitOptions, request: Request) -> (r: Option<(Work, WorkAction)>)
    ensures
        match r {
            Some((work, action)) => {
                &&& first_answer(options@, request) == Some((work@.stage, action@))
                &&& work@.options == options@
            },
            None => first_answer(options@, request) is None,
        },
{
    let operation = match request {
        Request::Load => Operation::Load,
        Request::Checkout(revision) => {
            return Some(
                (
                    Work { options, id: 0, stage: WorkStage::Acting },
                    WorkAction::CheckoutBranch(revision),
                ),
            );
        },
        Request::Apply(plan) => Operation::Apply(plan),
        Request::PublishPreview(wanted) => Operation::PublishPreview(wanted),
        Request::PublishExecute(plan) => Operation::PublishExecute(plan),
        Request::Stop => Operation::Stop,
    };
    begin(OperationRequest { options, id: 0, operation })
}

/// What follows for the worker of one repository: more to be done, or an answer.
pub enum WorkerOutput {
    Next(Work, WorkAction),
    Done(Response),
}

/// What a `WorkerOutput` holds.
#[verifier::ext_equal]
pub enum WorkerOutputView {
    Next(WorkView, ActionView),
    Done(ResponseView),
}

impl View for WorkerOutput {
    type V = WorkerOutputView;

    open spec fn view(&self) -> WorkerOutputView {
        match *self {
            WorkerOutput::Next(work, action) => WorkerOutputView::Next(work@, action@),
            WorkerOutput::Done(response) => WorkerOutputView::Done(response@),
        }
    }
}

/// What follows an event for the worker of one repository. What a publication would
/// change is shown in the graph of the stacks that it is about.
pub open spec fn answered(work: WorkView, event: WorkEventView) -> WorkerOutputView {
    match worked(work, event) {
        WorkOutputView::Next(next, action) => WorkerOutputView::Next(
            next,
            match next.stage {
                StageView::Previewing(plan) => load_for(plan.options),
                _ => action,
            },
        ),
        WorkOutputView::Done(result) => WorkerOutputView::Done(
            ResponseView {
                graph: result.graph,
                preview: result.preview,
                publish_plan: result.publish_plan,
                operation_error: result.operation_error,
            },
        ),
    }
}

/// Goes on with what was asked of the worker of one repository.
pub fn worker(work: Work, event: WorkEvent) -> (r: WorkerOutput)
    requires
        answers(work@.stage, event@),
    ensures
        r@ == answered(work@, event@),
{
    match operation_worker(work, event) {
        WorkOutput::Next(next, action) => {
            let load = match &next.stage {
                WorkStage::Previewing(plan) => Some(load_with(&plan.options)),
                _ => None,
            };
            match load {
                Some(load) => WorkerOutput::Next(next, load),
                None => WorkerOutput::Next(next, action),
            }
        },
        WorkOutput::Done(result) => {
            let OperationResult { graph, preview, publish_plan, operation_error, .. } = result;
            WorkerOutput::Done(Response { graph, preview, publish_plan, operation_error })
        },
    }
}

/// What the view waits for: a key or a change of the terminal's size, the end of an
/// operation, or an error of the terminal.
pub enum UiEvent {
    Terminal(TerminalEvent),
    OperationCompleted(Box<OperationResult>),
    InputError(String),
}

} // verus!

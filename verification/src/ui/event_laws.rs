//! What holds of operations from their beginning to their result.

use crate::integrations::github::LinkView;
use crate::stack::submit::{OptionsView, PlanView};
use crate::text::Text;
use crate::ui::event::{
    answered, answers, first_step, worked, ActionView, OperationResultView, OperationView,
    StageView, WorkEventView, WorkOutputView, WorkView, WorkerOutputView,
};
use crate::ui::links::{displayed_heads, links_by_branch};
use crate::ui::model::GraphView;
use crate::ui::preview::published;
use vstd::prelude::*;

verus! {

/// The graph is read next, with the remote and the base of the options.
pub open spec fn reads_graph(action: ActionView, options: OptionsView) -> bool {
    action == (ActionView::LoadGraph { remote: options.remote, base: options.base })
}

/// The result of an operation that shows nothing but a graph, and tells an error.
pub open spec fn tells(
    result: OperationResultView,
    options: OptionsView,
    id: u64,
    graph: Result<GraphView, Text>,
    error: Option<Text>,
) -> bool {
    &&& result.repo == options.repo
    &&& result.id == id
    &&& result.graph == graph
    &&& result.preview is None
    &&& result.publish_plan is None
    &&& result.operation_error == error
}

/// What an operation that is begun waits for.
pub open spec fn first_stage(options: OptionsView, operation: OperationView) -> StageView {
    match first_step(options, operation) {
        Some((stage, _)) => stage,
        None => arbitrary(),
    }
}

/// What is done first for an operation.
pub open spec fn first_action(options: OptionsView, operation: OperationView) -> ActionView {
    match first_step(options, operation) {
        Some((_, action)) => action,
        None => arbitrary(),
    }
}

/// More is to be done: the graph is read.
pub open spec fn reads_then(output: WorkOutputView, options: OptionsView) -> bool {
    output is Next && reads_graph(output->Next_1, options)
}

/// What is to be done next is answered by an event, and that ends the operation.
pub open spec fn ends(output: WorkOutputView, event: WorkEventView) -> bool {
    &&& output is Next
    &&& answers(output->Next_0.stage, event)
    &&& worked(output->Next_0, event) is Done
}

/// The result of an operation that an event ends.
pub open spec fn end_of(output: WorkOutputView, event: WorkEventView) -> OperationResultView {
    worked(output->Next_0, event)->Done_0
}

/// An operation that is begun.
pub open spec fn begun(options: OptionsView, id: u64, operation: OperationView) -> WorkView {
    WorkView { options, id, stage: first_stage(options, operation) }
}

/// Reading the graph ends with the graph.
pub proof fn law_loading(options: OptionsView, id: u64, graph: Result<GraphView, Text>)
    ensures
        ({
            let operation = OperationView::Load;
            let work = begun(options, id, operation);
            &&& first_step(options, operation) is Some
            &&& reads_graph(first_action(options, operation), options)
            &&& answers(work.stage, WorkEventView::Graph(graph))
            &&& worked(work, WorkEventView::Graph(graph)) matches WorkOutputView::Done(result)
                && tells(result, options, id, graph, None) && result.pr_links is None
        }),
{
}

/// A checkout or a move is carried out as it was asked for. Whether it succeeds or fails,
/// the graph is read then, and the result tells the graph and the error.
pub proof fn law_acting(
    options: OptionsView,
    id: u64,
    operation: OperationView,
    acted: Result<(), Text>,
    graph: Result<GraphView, Text>,
)
    requires
        operation is Checkout || operation is Apply,
    ensures
        ({
            let work = begun(options, id, operation);
            let error = match acted {
                Ok(_) => None,
                Err(error) => Some(error),
            };
            &&& first_step(options, operation) is Some
            &&& operation matches OperationView::Checkout { revision, branch } ==> first_action(
                options,
                operation,
            ) == (ActionView::Checkout { revision, branch })
            &&& operation matches OperationView::Apply(plan) ==> first_action(options, operation)
                == ActionView::Apply(plan)
            &&& answers(work.stage, WorkEventView::Acted(acted))
            &&& reads_then(worked(work, WorkEventView::Acted(acted)), options)
            &&& ends(worked(work, WorkEventView::Acted(acted)), WorkEventView::Graph(graph))
            &&& tells(
                end_of(worked(work, WorkEventView::Acted(acted)), WorkEventView::Graph(graph)),
                options,
                id,
                graph,
                error,
            )
            &&& end_of(
                worked(work, WorkEventView::Acted(acted)),
                WorkEventView::Graph(graph),
            ).pr_links is None
        }),
{
}

/// A refresh reads the graph, and then the pull requests of the branches of the remote that
/// it shows. Where those cannot be read, the graph is shown all the same.
pub proof fn law_refreshing(
    options: OptionsView,
    id: u64,
    graph: GraphView,
    links: Result<Seq<LinkView>, Text>,
)
    ensures
        ({
            let operation = OperationView::Refresh;
            let work = begun(options, id, operation);
            let event = WorkEventView::Graph(Ok(graph));
            let result = end_of(worked(work, event), WorkEventView::Links(links));
            &&& first_step(options, operation) is Some
            &&& reads_graph(first_action(options, operation), options)
            &&& answers(work.stage, event)
            &&& worked(work, event) is Next
            &&& worked(work, event)->Next_1 == ActionView::LoadLinks(
                displayed_heads(graph, options.remote),
            )
            &&& ends(worked(work, event), WorkEventView::Links(links))
            &&& tells(result, options, id, Ok(graph), None)
            &&& result.pr_links == Some(
                match links {
                    Ok(links) => Ok::<Map<Text, LinkView>, Text>(
                        links_by_branch(options.remote, links),
                    ),
                    Err(error) => Err("PR links unavailable: "@ + error),
                },
            )
        }),
{
}

/// A refresh that cannot read the graph says why, and asks for no pull requests.
pub proof fn law_failed_refresh(options: OptionsView, id: u64, error: Text)
    ensures
        ({
            let work = begun(options, id, OperationView::Refresh);
            worked(work, WorkEventView::Graph(Err(error))) matches WorkOutputView::Done(result)
                && tells(result, options, id, Err(error), None) && result.pr_links is None
        }),
{
}

/// Before a publication is shown it is planned with the options that are wanted, and the
/// graph is read. The result shows the graph as it would be, with the plan.
pub proof fn law_previewing(
    options: OptionsView,
    id: u64,
    wanted: OptionsView,
    plan: PlanView,
    graph: GraphView,
)
    ensures
        ({
            let operation = OperationView::PublishPreview(wanted);
            let work = begun(options, id, operation);
            let planned = WorkEventView::Planned(Ok(plan));
            let event = WorkEventView::Graph(Ok(graph));
            let result = end_of(worked(work, planned), event);
            &&& first_step(options, operation) is Some
            &&& first_action(options, operation) == ActionView::Plan(wanted)
            &&& answers(work.stage, planned)
            &&& reads_then(worked(work, planned), options)
            &&& ends(worked(work, planned), event)
            &&& result.repo == options.repo
            &&& result.id == id
            &&& result.graph == Ok::<GraphView, Text>(graph)
            &&& result.pr_links is None
            &&& match published(graph, plan) {
                Ok(preview) => result.preview == Some(preview) && result.publish_plan == Some(plan)
                    && result.operation_error is None,
                Err(error) => result.preview is None && result.publish_plan is None
                    && result.operation_error == Some(error),
            }
        }),
{
}

/// A publication that cannot be planned is not shown. The result tells why, with the graph.
pub proof fn law_failed_planning(
    options: OptionsView,
    id: u64,
    wanted: OptionsView,
    error: Text,
    graph: Result<GraphView, Text>,
)
    ensures
        ({
            let work = begun(options, id, OperationView::PublishPreview(wanted));
            let planned = WorkEventView::Planned(Err(error));
            let result = end_of(worked(work, planned), WorkEventView::Graph(graph));
            &&& reads_then(worked(work, planned), options)
            &&& ends(worked(work, planned), WorkEventView::Graph(graph))
            &&& tells(result, options, id, graph, Some(error))
            &&& result.pr_links is None
        }),
{
}

/// A plan is published as it was shown, and the graph is read then. The result holds the
/// pull requests by the branches of the plan's remote, or tells why there are none.
pub proof fn law_publishing(
    options: OptionsView,
    id: u64,
    plan: PlanView,
    published: Result<Seq<LinkView>, Text>,
    graph: Result<GraphView, Text>,
)
    ensures
        ({
            let operation = OperationView::PublishExecute(plan);
            let work = begun(options, id, operation);
            let event = WorkEventView::Published(published);
            let result = end_of(worked(work, event), WorkEventView::Graph(graph));
            &&& first_step(options, operation) is Some
            &&& first_action(options, operation) == ActionView::Publish(plan)
            &&& answers(work.stage, event)
            &&& reads_then(worked(work, event), options)
            &&& ends(worked(work, event), WorkEventView::Graph(graph))
            &&& match published {
                Ok(links) => tells(result, options, id, graph, None) && result.pr_links == Some(
                    Ok::<Map<Text, LinkView>, Text>(links_by_branch(plan.options.remote, links)),
                ),
                Err(error) => tells(result, options, id, graph, Some(error))
                    && result.pr_links is None,
            }
        }),
{
}

/// The worker of one repository does and tells the same. Only what a publication would
/// change is looked for in the graph of the remote and the base of its plan.
pub proof fn law_workers_answer(work: WorkView, event: WorkEventView)
    requires
        answers(work.stage, event),
    ensures
        match worked(work, event) {
            WorkOutputView::Next(next, action) => {
                &&& answered(work, event) matches WorkerOutputView::Next(then, wanted) && then
                    == next && match next.stage {
                    StageView::Previewing(plan) => reads_graph(wanted, plan.options),
                    _ => wanted == action,
                }
            },
            WorkOutputView::Done(result) => {
                &&& answered(work, event) matches WorkerOutputView::Done(response) && response.graph
                    == result.graph && response.preview == result.preview && response.publish_plan
                    == result.publish_plan && response.operation_error == result.operation_error
            },
        },
{
}

} // verus!

//! What holds of every graph and every run. What holds of two runs is in
//! [`agreement`](crate::agreement).

use std::sync::Arc;

use vstd::prelude::*;

use crate::agent_node::AgentNode;
use crate::error::{outcome_view, ErrorView, LangGraphError};
use crate::execution::{
    budget_text, dead_end_text, failed, first_failure, node_log, node_logs, nodes_can_give,
    step_can_be, steps_can_be, EventView, Origin, Position, StepRecord,
};
use crate::model::GraphView;
use crate::names::Name;
use crate::state_graph_builder::START_NODE;

verus! {

/// After as many steps as `records` tells of, that many were begun.
pub proof fn steps_are_counted<N, R>(graph: GraphView<N, R>, records: Seq<StepRecord>)
    ensures
        graph.position(records).step == records.len(),
    decreases records.len(),
{
    if records.len() > 0 {
        steps_are_counted(graph, records.drop_last());
    }
}

/// A run that is on its way has not begun more steps than the budget allows.
proof fn lemma_going_in_budget<N, R>(graph: GraphView<N, R>, records: Seq<StepRecord>)
    requires
        graph.stream_going(records) || graph.batch_going(records),
    ensures
        records.len() <= graph.max_steps,
{
    if records.len() > 0 {
        steps_are_counted(graph, records.drop_last());
    }
}

/// No run takes more steps than the budget allows, whatever its nodes and
/// routers do.
pub proof fn runs_keep_the_budget<N, R>(
    graph: GraphView<N, R>,
    records: Seq<StepRecord>,
    result: Result<(), ErrorView>,
)
    requires
        graph.stream_run(records) || graph.batch_run(records, result),
    ensures
        records.len() <= graph.max_steps,
{
    if failed(records) {
        steps_are_counted(graph, records.drop_last());
    } else {
        lemma_going_in_budget(graph, records);
    }
}

/// Only the last step of a run can fail: after an error no further node runs.
pub proof fn an_error_is_the_end<N, R>(
    graph: GraphView<N, R>,
    records: Seq<StepRecord>,
    result: Result<(), ErrorView>,
    i: int,
)
    requires
        graph.stream_run(records) || graph.batch_run(records, result),
        0 <= i < records.len() - 1,
    ensures
        records[i].outcome is Ok,
{
    let steps = if failed(records) {
        records.drop_last()
    } else {
        records
    };
    lemma_going_succeeds(graph, steps, i);
}

/// Every step of a run that is on its way succeeded.
pub proof fn lemma_going_succeeds<N, R>(graph: GraphView<N, R>, records: Seq<StepRecord>, i: int)
    requires
        graph.stream_going(records) || graph.batch_going(records),
        0 <= i < records.len(),
    ensures
        records[i].outcome is Ok,
    decreases records.len(),
{
    if i < records.len() - 1 {
        lemma_going_succeeds(graph, records.drop_last(), i);
    }
}

/// The events of steps are neither the start nor, if no step failed, the end of
/// a run.
proof fn lemma_steps_log_is_inner<N, R>(graph: GraphView<N, R>, records: Seq<StepRecord>)
    requires
        graph.stream_going(records),
        node_logs(graph, records),
    ensures
        forall|i: int|
            0 <= i < graph.steps_log(records).len() ==> {
                &&& !(#[trigger] graph.steps_log(records)[i]).terminal()
                &&& graph.steps_log(records)[i] !is WorkflowStarted
            },
    decreases records.len(),
{
    if records.len() > 0 {
        lemma_steps_log_is_inner(graph, records.drop_last());
    }
}

/// A streamed run starts with the one event that says so, and ends with the one
/// event that says whether it succeeded.
pub proof fn a_stream_has_one_start_and_one_end<N, R>(
    graph: GraphView<N, R>,
    records: Seq<StepRecord>,
)
    requires
        graph.stream_run(records),
        node_logs(graph, records),
    ensures
        ({
            let log = graph.stream_log(records);
            &&& log.len() >= 2
            &&& forall|i: int|
                0 <= i < log.len() ==> {
                    &&& (#[trigger] log[i] is WorkflowStarted <==> i == 0)
                    &&& (log[i].terminal() <==> i == log.len() - 1)
                }
        }),
{
    let steps = if failed(records) {
        records.drop_last()
    } else {
        records
    };
    lemma_steps_log_is_inner(graph, steps);
}

/// A streamed run succeeds if and only if no step failed and it reached the
/// end, and then tells how many steps were begun.
pub proof fn a_stream_succeeds_at_the_end<N, R>(graph: GraphView<N, R>, records: Seq<StepRecord>)
    requires
        graph.stream_run(records),
    ensures
        ({
            let rest = graph.stream_rest(graph.position(records));
            graph.stream_log(records).last() is WorkflowFinished <==> !failed(records)
                && rest.reached_end
        }),
        graph.stream_log(records).last() matches EventView::WorkflowFinished { total_steps }
            ==> total_steps <= graph.max_steps,
{
    steps_are_counted(graph, records);
}

/// A streamed run in which a node fails ends with that error, at the step in
/// which it happened.
pub proof fn a_stream_reports_the_failure<N, R>(graph: GraphView<N, R>, records: Seq<StepRecord>)
    requires
        graph.stream_run(records),
        failed(records),
    ensures
        graph.stream_log(records).last() == (EventView::WorkflowError {
            step: records.len(),
            error: records.last().outcome->Err_0,
        }),
{
    steps_are_counted(graph, records.drop_last());
}

/// A streamed run that uses up its budget before it reaches the end fails, and
/// the error names the budget.
pub proof fn a_stream_reports_an_exhausted_budget<N, R>(
    graph: GraphView<N, R>,
    records: Seq<StepRecord>,
)
    requires
        graph.stream_run(records),
        !failed(records),
        records.len() == graph.max_steps,
        !graph.position(records).reached_end,
    ensures
        graph.stream_log(records).last() == (EventView::WorkflowError {
            step: graph.max_steps,
            error: ErrorView::GraphError(budget_text(graph.max_steps)),
        }),
{
    steps_are_counted(graph, records);
}

/// A batch run that uses up its budget is not an error.
pub proof fn a_batch_forgives_an_exhausted_budget<N, R>(
    graph: GraphView<N, R>,
    records: Seq<StepRecord>,
    result: Result<(), ErrorView>,
)
    requires
        graph.batch_run(records, result),
        !failed(records),
        records.len() == graph.max_steps,
    ensures
        result is Ok,
{
    steps_are_counted(graph, records);
}

/// A batch run that ends well with budget to spare, after a step from nodes or
/// markers, reached the end.
pub proof fn a_batch_success_reached_the_end<N, R>(
    graph: GraphView<N, R>,
    records: Seq<StepRecord>,
    result: Result<(), ErrorView>,
)
    requires
        graph.batch_run(records, result),
        result is Ok,
        records.len() < graph.max_steps,
        graph.position(records).origin == Origin::Nodes || graph.position(records).origin
            == Origin::Markers,
    ensures
        graph.entered(graph.position(records)).reached_end,
{
    steps_are_counted(graph, records);
}

/// A batch run in which a node fails has that error as its result.
pub proof fn a_batch_reports_the_failure<N, R>(
    graph: GraphView<N, R>,
    records: Seq<StepRecord>,
    result: Result<(), ErrorView>,
)
    requires
        graph.batch_run(records, result),
        failed(records),
    ensures
        result == records.last().outcome,
{
}

/// A batch run whose only current name is a node without edges is at a dead
/// end: once the node has run, and if the budget allows to look further, the
/// run fails.
pub proof fn a_batch_reports_a_dead_end<N, R>(
    graph: GraphView<N, R>,
    records: Seq<StepRecord>,
    result: Result<(), ErrorView>,
    name: Name,
)
    requires
        records.len() > 0,
        graph.batch_run(records, result),
        !failed(records),
        records.len() < graph.max_steps,
        graph.position(records.drop_last()).current == set![name],
        !graph.position(records.drop_last()).reached_end,
        name != graph.end,
        graph.registered(name),
        !graph.has_edges(name),
    ensures
        result == Err::<(), ErrorView>(ErrorView::GraphError(dead_end_text())),
{
    let before = graph.position(records.drop_last());
    let entered = graph.entered(before);
    let at = graph.position(records);
    steps_are_counted(graph, records);
    assert(entered.current =~= set![name]);
    assert(entered.current.contains(name));
    assert(at.current =~= Set::<Name>::empty()) by {
        assert forall|target: Name| !at.current.contains(target) by {
            if at.current.contains(target) {
                let from = choose|from: Name| #[trigger]
                    entered.current.contains(from) && graph.leads_to(
                        from,
                        records.last().routes,
                        target,
                    );
                assert(from == name);
            }
        }
    }
    assert(graph.entered(at).current =~= Set::<Name>::empty());
}

/// With no names to start from, a batch run takes no step and ends well, and a
/// streamed run tells only of its start and that the end was not reached.
pub proof fn no_start_names_no_steps<N, R>(
    graph: GraphView<N, R>,
    records: Seq<StepRecord>,
    result: Result<(), ErrorView>,
)
    requires
        graph.start == Set::<Name>::empty(),
    ensures
        graph.batch_run(records, result) ==> records.len() == 0 && result is Ok,
        graph.stream_run(records) ==> graph.stream_log(records).len() == 2 && graph.stream_log(
            records,
        )[1] is WorkflowError,
{
    let at = graph.start_position();
    assert(graph.entered(at).current =~= Set::<Name>::empty());
    if graph.batch_run(records, result) || graph.stream_run(records) {
        if records.len() > 0 {
            lemma_first_step_was_taken(graph, records, result);
        }
    }
}

/// A run that took a step did not stop at its start.
proof fn lemma_first_step_was_taken<N, R>(
    graph: GraphView<N, R>,
    records: Seq<StepRecord>,
    result: Result<(), ErrorView>,
)
    requires
        records.len() > 0,
        graph.batch_run(records, result) || graph.stream_run(records),
    ensures
        !graph.stream_stops(graph.start_position()),
{
    let steps = records.drop_last();
    lemma_going_left_the_start(graph, steps);
}

/// A run that is on its way is still at its start, or did not stop there.
proof fn lemma_going_left_the_start<N, R>(graph: GraphView<N, R>, records: Seq<StepRecord>)
    requires
        graph.batch_going(records) || graph.stream_going(records),
    ensures
        records.len() > 0 ==> !graph.stream_stops(graph.start_position()),
    decreases records.len(),
{
    if records.len() > 0 {
        lemma_going_left_the_start(graph, records.drop_last());
    }
}

/// Start names that the graph does not know are skipped: if it knows none of
/// them, no node runs and a batch run ends well.
pub proof fn unknown_start_names_are_skipped<S, N: AgentNode<S>, R: Fn(&S) -> String>(
    graph: GraphView<N, R>,
    state: Arc<S>,
    records: Seq<StepRecord>,
    result: Result<(), ErrorView>,
)
    requires
        graph.batch_run(records, result),
        steps_can_be(graph, state, records),
        forall|name: Name| #[trigger] graph.start.contains(name) ==> !graph.known(name),
    ensures
        result is Ok,
        records.len() <= 1,
        graph.runnable(graph.entered(graph.start_position()).current) == Set::<Name>::empty(),
{
    let start = graph.start_position();
    let entered = graph.entered(start);
    assert(graph.runnable(entered.current) =~= Set::<Name>::empty()) by {
        assert forall|name: Name| !graph.runnable(entered.current).contains(name) by {
            if graph.runnable(entered.current).contains(name) {
                assert(graph.start.contains(name));
            }
        }
    }
    if failed(records) {
        let before = records.drop_last();
        if before.len() > 0 {
            lemma_strays_lead_nowhere(graph, before);
            assert(graph.entered(graph.position(before)).current =~= Set::<Name>::empty());
        }
        assert(nodes_can_give(graph, state, Set::empty(), records.last().outcome));
        let (order, outcomes) = choose|order: Seq<Name>, outcomes: Seq<Result<(), LangGraphError>>|
            #![trigger order.to_set(), first_failure(outcomes)]
            {
                &&& order.no_duplicates()
                &&& order.to_set() == Set::<Name>::empty()
                &&& outcomes.len() == order.len()
                &&& records.last().outcome == first_failure(outcomes)
            };
        if order.len() > 0 {
            assert(order.contains(order[0]));
            assert(order.to_set().contains(order[0]));
        }
    } else if records.len() > 0 {
        lemma_strays_lead_nowhere(graph, records);
    }
}

/// From names that the graph does not know, a run takes one step at most.
proof fn lemma_strays_lead_nowhere<N, R>(graph: GraphView<N, R>, records: Seq<StepRecord>)
    requires
        records.len() > 0,
        graph.batch_going(records),
        forall|name: Name| #[trigger] graph.start.contains(name) ==> !graph.known(name),
    ensures
        records.len() == 1,
        graph.position(records).current == Set::<Name>::empty(),
        graph.position(records).origin == Origin::Strays,
    decreases records.len(),
{
    if records.len() > 1 {
        lemma_strays_lead_nowhere(graph, records.drop_last());
        let at = graph.position(records.drop_last());
        assert(graph.entered(at).current =~= Set::<Name>::empty());
    } else {
        let entered = graph.entered(graph.start_position());
        assert(records.drop_last() =~= Seq::<StepRecord>::empty());
        assert forall|name: Name| #[trigger] entered.current.contains(name) implies !graph.known(
            name,
        ) by {
            assert(graph.start.contains(name));
        }
        assert forall|target: Name|
            !graph.successors(entered.current, records.last().routes).contains(target) by {
            if graph.successors(entered.current, records.last().routes).contains(target) {
                let from = choose|from: Name| #[trigger]
                    entered.current.contains(from) && graph.leads_to(
                        from,
                        records.last().routes,
                        target,
                    );
                assert(!graph.known(from));
            }
        }
        assert(graph.position(records).current =~= Set::<Name>::empty());
    }
}

/// Whether markers never lead to unknown names only on the way that `records`
/// tells of.
pub open spec fn never_lost<N, R>(graph: GraphView<N, R>, records: Seq<StepRecord>) -> bool {
    forall|k: int|
        0 <= k <= records.len() ==> !graph.lost(graph.position(#[trigger] records.take(k)))
}

/// A batch run that never gets lost goes where a streamed run goes.
proof fn lemma_going_together<N, R>(graph: GraphView<N, R>, records: Seq<StepRecord>)
    requires
        graph.stream_going(records),
        never_lost(graph, records),
    ensures
        graph.batch_going(records),
    decreases records.len(),
{
    if records.len() > 0 {
        let before = records.drop_last();
        assert forall|k: int| 0 <= k <= before.len() implies !graph.lost(
            graph.position(#[trigger] before.take(k)),
        ) by {
            assert(before.take(k) =~= records.take(k));
        }
        lemma_going_together(graph, before);
        assert(records.take(records.len() - 1) =~= before);
    }
}

/// A batch run can take the steps of any streamed run on whose way markers
/// never lead to unknown names only. A failure then comes out the same in both,
/// and what succeeds as a stream succeeds as a batch.
pub proof fn a_batch_can_follow_a_stream<N, R>(
    graph: GraphView<N, R>,
    records: Seq<StepRecord>,
)
    requires
        graph.stream_run(records),
        never_lost(graph, records),
    ensures
        failed(records) ==> graph.batch_run(records, records.last().outcome),
        graph.stream_log(records).last() is WorkflowFinished ==> graph.batch_run(records, Ok(())),
        exists|result: Result<(), ErrorView>| #[trigger] graph.batch_run(records, result),
{
    if failed(records) {
        let before = records.drop_last();
        assert forall|k: int| 0 <= k <= before.len() implies !graph.lost(
            graph.position(#[trigger] before.take(k)),
        ) by {
            assert(before.take(k) =~= records.take(k));
        }
        lemma_going_together(graph, before);
        assert(records.take(records.len() - 1) =~= before);
        assert(graph.batch_run(records, records.last().outcome));
    } else {
        lemma_going_together(graph, records);
        let dead_end = Err::<(), ErrorView>(ErrorView::GraphError(dead_end_text()));
        assert(graph.batch_run(records, Ok(())) || graph.batch_run(records, dead_end));
    }
}

/// Whether the graph has static edges only.
pub open spec fn static_only<N, R>(graph: GraphView<N, R>) -> bool {
    graph.routers.dom() == Set::<Name>::empty()
}

/// Static edges of a valid graph never lead to a name that the graph does not
/// know.
pub proof fn static_edges_stay_in_the_graph<N, R>(
    graph: GraphView<N, R>,
    records: Seq<StepRecord>,
)
    requires
        graph.valid(),
        static_only(graph),
    ensures
        forall|name: Name| #[trigger]
            graph.position(records).current.contains(name) ==> graph.known(name),
        !graph.lost(graph.position(records)),
{
    let at = graph.position(records);
    assert forall|name: Name| #[trigger] at.current.contains(name) implies graph.known(name) by {
        if records.len() == 0 {
            assert(graph.has_edges(name));
        } else {
            let entered = graph.entered(graph.position(records.drop_last()));
            let routes = records.last().routes;
            let from = choose|from: Name| #[trigger]
                entered.current.contains(from) && graph.leads_to(from, routes, name);
            assert(graph.static_edge(from, name));
            assert(graph.endpoint(name));
            if graph.start.contains(name) {
                assert(graph.has_edges(name));
            }
        }
    }
    if graph.lost(at) {
        let entered = graph.entered(at);
        assert(entered.current =~= Set::<Name>::empty()) by {
            assert forall|name: Name| !entered.current.contains(name) by {
                if entered.current.contains(name) {
                    assert(at.current.contains(name));
                }
            }
        }
    }
}

/// Static edges leave no choice: two streamed runs of a graph without
/// conditional edges, in which no step fails, go the same way.
pub proof fn static_edges_leave_no_choice<N, R>(
    graph: GraphView<N, R>,
    records: Seq<StepRecord>,
    others: Seq<StepRecord>,
)
    requires
        static_only(graph),
        graph.stream_run(records),
        graph.stream_run(others),
        !failed(records),
        !failed(others),
    ensures
        records.len() == others.len(),
        forall|k: int|
            0 <= k <= records.len() ==> graph.position(#[trigger] records.take(k))
                == graph.position(others.take(k)),
{
    if records.len() < others.len() {
        lemma_same_way(graph, records, others.take(records.len() as int));
        lemma_going_on(graph, others, records.len() as int);
    } else if others.len() < records.len() {
        lemma_same_way(graph, records.take(others.len() as int), others);
        lemma_going_on(graph, records, others.len() as int);
    }
    assert forall|k: int| 0 <= k <= records.len() implies graph.position(#[trigger] records.take(k))
        == graph.position(others.take(k)) by {
        lemma_same_way(graph, records.take(k), others.take(k));
    }
}

/// After as many steps along static edges, the position is the same.
proof fn lemma_same_way<N, R>(
    graph: GraphView<N, R>,
    records: Seq<StepRecord>,
    others: Seq<StepRecord>,
)
    requires
        static_only(graph),
        records.len() == others.len(),
    ensures
        graph.position(records) == graph.position(others),
    decreases records.len(),
{
    if records.len() > 0 {
        lemma_same_way(graph, records.drop_last(), others.drop_last());
        let current = graph.entered(graph.position(records.drop_last())).current;
        let (one, other) = (records.last().routes, others.last().routes);
        assert forall|target: Name|
            graph.successors(current, one).contains(target) <==> graph.successors(
                current,
                other,
            ).contains(target) by {
            if graph.successors(current, one).contains(target) {
                let from = choose|from: Name| #[trigger]
                    current.contains(from) && graph.leads_to(from, one, target);
                assert(graph.leads_to(from, other, target));
            }
            if graph.successors(current, other).contains(target) {
                let from = choose|from: Name| #[trigger]
                    current.contains(from) && graph.leads_to(from, other, target);
                assert(graph.leads_to(from, one, target));
            }
        }
        assert(graph.successors(current, one) =~= graph.successors(current, other));
    }
}

/// A run that is on its way did not stop before.
pub proof fn lemma_going_on<N, R>(graph: GraphView<N, R>, records: Seq<StepRecord>, k: int)
    requires
        graph.stream_going(records) || graph.batch_going(records),
        0 <= k < records.len(),
    ensures
        !graph.stream_stops(graph.position(records.take(k))),
        graph.batch_going(records) ==> !graph.batch_stops(graph.position(records.take(k))),
    decreases records.len(),
{
    let before = records.drop_last();
    assert(before.take(k) =~= records.take(k));
    if k < before.len() {
        lemma_going_on(graph, before, k);
    } else {
        assert(records.take(k) =~= before);
    }
}

/// A step in which nodes run is announced first and routed last, with the
/// events of its nodes between; all of them carry the number of the step. In
/// it, every node starts once and finishes once, and starts before it finishes.
pub proof fn a_step_is_told_in_order<N, R>(
    graph: GraphView<N, R>,
    at: Position,
    record: StepRecord,
)
    requires
        record.outcome is Ok,
        node_log(
            record.node_events,
            graph.entered(at).step,
            graph.runnable(graph.entered(at).current),
        ),
        graph.runnable(graph.entered(at).current) != Set::<Name>::empty(),
    ensures
        ({
            let step = at.step + 1;
            let nodes = graph.runnable(graph.entered(at).current);
            let log = graph.step_log(at, record);
            &&& log.len() == 2 * nodes.len() + 2
            &&& log[0] == EventView::StepStarted { step, nodes }
            &&& log.last() matches EventView::RoutingDecision { step: s, .. } && s == step
            &&& forall|i: int|
                0 < i < log.len() - 1 ==> match #[trigger] log[i] {
                    EventView::NodeStarted { step: s, name } => s == step && nodes.contains(name),
                    EventView::NodeFinished { step: s, name } => s == step && nodes.contains(name),
                    _ => false,
                }
            &&& forall|name: Name| #[trigger]
                nodes.contains(name) ==> exists|i: int, j: int|
                    {
                        &&& 0 < i < j < log.len() - 1
                        &&& #[trigger] log[i] == EventView::NodeStarted { step, name }
                        &&& #[trigger] log[j] == EventView::NodeFinished { step, name }
                    }
            &&& log.no_duplicates()
        }),
{
    let step = at.step + 1;
    let nodes = graph.runnable(graph.entered(at).current);
    let log = graph.step_log(at, record);
    assert forall|i: int| 0 < i < log.len() - 1 implies log[i] == #[trigger] record.node_events[i
        - 1] by {}
    assert forall|name: Name| #[trigger] nodes.contains(name) implies exists|i: int, j: int|
        {
            &&& 0 < i < j < log.len() - 1
            &&& #[trigger] log[i] == EventView::NodeStarted { step, name }
            &&& #[trigger] log[j] == EventView::NodeFinished { step, name }
        } by {
        let (i, j) = choose|i: int, j: int|
            {
                &&& 0 <= i < j < record.node_events.len()
                &&& #[trigger] record.node_events[i] == EventView::NodeStarted { step, name }
                &&& #[trigger] record.node_events[j] == EventView::NodeFinished { step, name }
            };
        assert(log[i + 1] == EventView::NodeStarted { step, name });
        assert(log[j + 1] == EventView::NodeFinished { step, name });
    }
    assert forall|i: int, j: int|
        0 <= i < log.len() && 0 <= j < log.len() && i != j implies log[i] != log[j] by {
        if 0 < i < log.len() - 1 && 0 < j < log.len() - 1 {
            assert(record.node_events[i - 1] != record.node_events[j - 1]);
        } else if 0 < i < log.len() - 1 {
            assert(log[i] == record.node_events[i - 1]);
        } else if 0 < j < log.len() - 1 {
            assert(log[j] == record.node_events[j - 1]);
        }
    }
}

/// A step in which no node runs, such as that of a start marker, only tells
/// where control goes.
pub proof fn markers_only_route<N, R>(graph: GraphView<N, R>, at: Position, record: StepRecord)
    requires
        record.outcome is Ok,
        graph.runnable(graph.entered(at).current) == Set::<Name>::empty(),
    ensures
        graph.step_log(at, record) == seq![
            EventView::RoutingDecision {
                step: at.step + 1,
                from_nodes: graph.entered(at).current,
                to_nodes: graph.successors(graph.entered(at).current, record.routes),
            },
        ],
{
}

/// A streamed run of a valid graph that starts from the start marker alone
/// tells of its first step only where control goes, and that is to the targets
/// of the marker.
pub proof fn the_start_marker_only_routes<N, R>(
    graph: GraphView<N, R>,
    records: Seq<StepRecord>,
)
    requires
        graph.valid(),
        graph.start == set![START_NODE@],
        graph.stream_run(records),
        records.len() > 0,
        records[0].outcome is Ok,
    ensures
        graph.stream_log(records)[1] == (EventView::RoutingDecision {
            step: 1,
            from_nodes: set![START_NODE@],
            to_nodes: graph.successors(set![START_NODE@], records[0].routes),
        }),
{
    let at = graph.start_position();
    let marker = START_NODE@;
    assert(graph.start.contains(marker));
    assert(graph.entered(at).current =~= set![marker]);
    assert(graph.runnable(set![marker]) =~= Set::<Name>::empty());
    markers_only_route(graph, at, records[0]);
    lemma_log_starts_with_first_step(graph, records);
    let first = graph.step_log(at, records[0]);
    assert(graph.stream_log(records)[1] == graph.steps_log(records)[0]);
    assert(graph.steps_log(records).take(first.len() as int)[0] == first[0]);
}

/// The log of steps starts with that of the first.
proof fn lemma_log_starts_with_first_step<N, R>(graph: GraphView<N, R>, records: Seq<StepRecord>)
    requires
        records.len() > 0,
    ensures
        ({
            let first = graph.step_log(graph.start_position(), records[0]);
            &&& graph.steps_log(records).len() >= first.len()
            &&& graph.steps_log(records).take(first.len() as int) == first
        }),
    decreases records.len(),
{
    let before = records.drop_last();
    let first = graph.step_log(graph.start_position(), records[0]);
    if before.len() > 0 {
        lemma_log_starts_with_first_step(graph, before);
        assert(graph.steps_log(records).take(first.len() as int) =~= graph.steps_log(before).take(
            first.len() as int,
        ));
    } else {
        assert(graph.steps_log(before) =~= Seq::<EventView>::empty());
        assert(graph.steps_log(records).take(first.len() as int) =~= first);
    }
}

/// What one step routes to, without the end, is what the next routes from.
pub proof fn routing_is_seamless<N, R>(graph: GraphView<N, R>, at: Position, record: StepRecord)
    ensures
        graph.entered(graph.stepped(at, record)).current == graph.successors(
            graph.entered(at).current,
            record.routes,
        ).remove(graph.end),
        graph.stepped(at, record).reached_end == (at.reached_end || at.current.contains(graph.end)),
{
}

/// A name with static edges only leads to all of its targets.
pub proof fn static_edges_fan_out<N, R>(
    graph: GraphView<N, R>,
    routes: Map<Name, Seq<Name>>,
    from: Name,
)
    requires
        graph.edges.dom().contains(from),
        !graph.routers.dom().contains(from),
    ensures
        graph.successors(set![from], routes) == graph.edges[from],
{
    assert(set![from].contains(from));
    assert forall|target: Name|
        graph.successors(set![from], routes).contains(target) <==> graph.edges[from].contains(
            target,
        ) by {
        if graph.edges[from].contains(target) {
            assert(graph.leads_to(from, routes, target));
        }
    }
    assert(graph.successors(set![from], routes) =~= graph.edges[from]);
}

/// A name with conditional edges only leads to what its routers return.
pub proof fn conditional_edges_follow_the_routers<N, R>(
    graph: GraphView<N, R>,
    routes: Map<Name, Seq<Name>>,
    from: Name,
)
    requires
        graph.routers.dom().contains(from),
        !graph.edges.dom().contains(from),
    ensures
        graph.successors(set![from], routes) == routes[from].to_set(),
{
    assert(set![from].contains(from));
    assert forall|target: Name|
        graph.successors(set![from], routes).contains(target) <==> routes[from].contains(
            target,
        ) by {
        if routes[from].contains(target) {
            assert(graph.leads_to(from, routes, target));
        }
    }
    assert(graph.successors(set![from], routes) =~= routes[from].to_set());
}

/// Several names lead to what each of them leads to. A name that more than one
/// of them leads to is there once.
pub proof fn branches_join<N, R>(
    graph: GraphView<N, R>,
    routes: Map<Name, Seq<Name>>,
    some: Set<Name>,
    others: Set<Name>,
)
    ensures
        graph.successors(some.union(others), routes) == graph.successors(some, routes).union(
            graph.successors(others, routes),
        ),
{
    let all = some.union(others);
    assert forall|target: Name|
        graph.successors(all, routes).contains(target) <==> graph.successors(some, routes).union(
            graph.successors(others, routes),
        ).contains(target) by {
        if graph.successors(all, routes).contains(target) {
            let from = choose|from: Name| #[trigger]
                all.contains(from) && graph.leads_to(from, routes, target);
            assert(some.contains(from) || others.contains(from));
        }
        if graph.successors(some, routes).contains(target) {
            let from = choose|from: Name| #[trigger]
                some.contains(from) && graph.leads_to(from, routes, target);
            assert(all.contains(from));
        }
        if graph.successors(others, routes).contains(target) {
            let from = choose|from: Name| #[trigger]
                others.contains(from) && graph.leads_to(from, routes, target);
            assert(all.contains(from));
        }
    }
    assert(graph.successors(all, routes) =~= graph.successors(some, routes).union(
        graph.successors(others, routes),
    ));
}

/// Whether the graph is a chain: from the one start name, which is a marker,
/// over the nodes `names` in their order, to the end, by static edges.
pub open spec fn chain<N, R>(graph: GraphView<N, R>, start: Name, names: Seq<Name>) -> bool {
    let way = chain_way(graph, start, names);
    &&& graph.start == set![start]
    &&& !graph.registered(start)
    &&& forall|i: int| 0 <= i < names.len() ==> graph.registered(#[trigger] names[i])
    &&& forall|i: int|
        0 <= i <= names.len() ==> {
            &&& #[trigger] way[i] != graph.end
            &&& graph.edges.dom().contains(way[i])
            &&& !graph.routers.dom().contains(way[i])
            &&& graph.edges[way[i]] == set![way[i + 1]]
        }
}

/// The names that a run of a chain passes through.
pub open spec fn chain_way<N, R>(
    graph: GraphView<N, R>,
    start: Name,
    names: Seq<Name>,
) -> Seq<Name> {
    seq![start] + names + seq![graph.end]
}

/// A streamed run of a chain is, after so many steps, at the name of that
/// number.
proof fn lemma_chain_position<N, R>(
    graph: GraphView<N, R>,
    start: Name,
    names: Seq<Name>,
    records: Seq<StepRecord>,
)
    requires
        chain(graph, start, names),
        records.len() <= names.len() + 1,
    ensures
        graph.position(records).current == set![
            chain_way(graph, start, names)[records.len() as int],
        ],
        !graph.position(records).reached_end,
    decreases records.len(),
{
    let way = chain_way(graph, start, names);
    if records.len() > 0 {
        let before = records.drop_last();
        let k = before.len() as int;
        lemma_chain_position(graph, start, names, before);
        assert(way[k] != graph.end);
        assert(graph.entered(graph.position(before)).current =~= set![way[k]]);
        static_edges_fan_out(graph, records.last().routes, way[k]);
    }
}

/// The log of the steps of a chain: one event for the marker, four for each
/// node.
proof fn lemma_chain_log<N, R>(
    graph: GraphView<N, R>,
    start: Name,
    names: Seq<Name>,
    records: Seq<StepRecord>,
)
    requires
        chain(graph, start, names),
        node_logs(graph, records),
        0 < records.len() <= names.len() + 1,
    ensures
        graph.steps_log(records).len() == 1 + 4 * (records.len() - 1),
    decreases records.len(),
{
    let way = chain_way(graph, start, names);
    let before = records.drop_last();
    let k = before.len() as int;
    lemma_chain_position(graph, start, names, before);
    assert(way[k] != graph.end);
    let current = graph.entered(graph.position(before)).current;
    assert(current =~= set![way[k]]);
    if k > 0 {
        lemma_chain_log(graph, start, names, before);
        assert(way[k] == names[k - 1]);
        assert(graph.runnable(current) =~= set![way[k]]);
        assert(graph.runnable(current).contains(way[k]));
        assert(graph.runnable(current).len() == 1);
        assert(graph.step_log(graph.position(before), records.last()).len() == 4);
    } else {
        assert(way[k] == start);
        assert(graph.runnable(current) =~= Set::<Name>::empty());
        assert(graph.steps_log(before).len() == 0);
        assert(graph.step_log(graph.position(before), records.last()).len() == 1);
    }
}

/// A chain of so many nodes, run as a stream with a budget that is large
/// enough, tells of three events and four more for each node, and begins two
/// steps more than it has nodes. The budget is large enough if it allows that
/// many steps; if not, the run fails for want of it.
pub proof fn a_chain_is_told_in_full<N, R>(
    graph: GraphView<N, R>,
    start: Name,
    names: Seq<Name>,
    records: Seq<StepRecord>,
)
    requires
        chain(graph, start, names),
        graph.stream_run(records),
        node_logs(graph, records),
        !failed(records),
    ensures
        graph.max_steps >= names.len() + 2 ==> {
            &&& graph.stream_log(records).len() == 3 + 4 * names.len()
            &&& graph.stream_log(records).last() == EventView::WorkflowFinished {
                total_steps: names.len() + 2,
            }
        },
        graph.max_steps < names.len() + 2 ==> graph.stream_log(records).last() == (
        EventView::WorkflowError {
            step: graph.max_steps,
            error: ErrorView::GraphError(budget_text(graph.max_steps)),
        }),
{
    let way = chain_way(graph, start, names);
    let last = names.len() as int + 1;
    if records.len() > last {
        lemma_going_on(graph, records, last);
        lemma_chain_position(graph, start, names, records.take(last));
        assert(graph.entered(graph.position(records.take(last))).current =~= Set::<Name>::empty());
    }
    steps_are_counted(graph, records);
    runs_keep_the_budget(graph, records, Ok(()));
    lemma_chain_position(graph, start, names, records);
    if records.len() < last {
        assert(graph.entered(graph.position(records)).current.contains(way[records.len() as int]));
    } else {
        lemma_chain_log(graph, start, names, records);
        assert(graph.position(records).current.contains(graph.end));
    }
}

/// A chain, run as a batch in which no node fails and with a budget that is
/// large enough, ends well; after the marker, it runs each node in its turn.
pub proof fn a_chain_runs_to_the_end<N, R>(
    graph: GraphView<N, R>,
    start: Name,
    names: Seq<Name>,
    records: Seq<StepRecord>,
    result: Result<(), ErrorView>,
)
    requires
        chain(graph, start, names),
        graph.batch_run(records, result),
        !failed(records),
        graph.max_steps >= names.len() + 2,
    ensures
        result is Ok,
        records.len() == names.len() + 1,
        forall|k: int|
            0 < k < records.len() ==> graph.runnable(
                graph.entered(graph.position(#[trigger] records.take(k))).current,
            ) == set![names[k - 1]],
{
    let way = chain_way(graph, start, names);
    let last = names.len() as int + 1;
    if records.len() > last {
        lemma_going_on(graph, records, last);
        lemma_chain_position(graph, start, names, records.take(last));
        assert(graph.entered(graph.position(records.take(last))).current =~= Set::<Name>::empty());
    }
    steps_are_counted(graph, records);
    lemma_chain_position(graph, start, names, records);
    let at = graph.position(records);
    if records.len() < last {
        let name = way[records.len() as int];
        assert(graph.edges.dom().contains(name));
        assert(graph.entered(at).current.contains(name));
        assert forall|other: Name| #[trigger] graph.entered(at).current.contains(
            other,
        ) implies graph.known(other) by {
            assert(other == name);
        }
    } else {
        assert(at.current.contains(graph.end));
        assert(graph.entered(at).current =~= Set::<Name>::empty());
    }
    assert forall|k: int| 0 < k < records.len() implies graph.runnable(
        graph.entered(graph.position(#[trigger] records.take(k))).current,
    ) == set![names[k - 1]] by {
        lemma_chain_position(graph, start, names, records.take(k));
        assert(way[k] == names[k - 1] && way[k] != graph.end);
        assert(graph.runnable(graph.entered(graph.position(records.take(k))).current) =~= set![
            names[k - 1],
        ]);
    }
}

/// A run of a valid graph takes a first step.
pub proof fn a_valid_graph_gets_going<N, R>(graph: GraphView<N, R>)
    requires
        graph.valid(),
    ensures
        !graph.batch_stops(graph.start_position()),
        !graph.stream_stops(graph.start_position()),
{
    let start = graph.start_position();
    let name = graph.start.choose();
    assert(graph.start.contains(name)) by {
        if forall|other: Name| !graph.start.contains(other) {
            assert(graph.start =~= Set::<Name>::empty());
        }
    }
    assert(graph.entered(start).current.contains(name));
}

/// A batch run of a valid graph without conditional edges, in which no node
/// fails, ends well or at a dead end.
pub proof fn static_graphs_end_well_or_dead<N, R>(
    graph: GraphView<N, R>,
    records: Seq<StepRecord>,
    result: Result<(), ErrorView>,
)
    requires
        graph.valid(),
        static_only(graph),
        graph.batch_run(records, result),
        !failed(records),
    ensures
        result is Ok || result == Err::<(), ErrorView>(ErrorView::GraphError(dead_end_text())),
{
    static_edges_stay_in_the_graph(graph, records);
}

/// The first failure among outcomes is one of them, all before it are well, and
/// there is one unless all are.
pub proof fn lemma_first_failure(outcomes: Seq<Result<(), LangGraphError>>)
    ensures
        match first_failure(outcomes) {
            Ok(_) => forall|i: int| 0 <= i < outcomes.len() ==> #[trigger] outcomes[i] is Ok,
            Err(error) => exists|i: int|
                {
                    &&& 0 <= i < outcomes.len()
                    &&& outcome_view(#[trigger] outcomes[i]) == Err::<(), ErrorView>(error)
                    &&& forall|j: int| 0 <= j < i ==> #[trigger] outcomes[j] is Ok
                },
        },
    decreases outcomes.len(),
{
    if outcomes.len() > 0 {
        let rest = outcomes.drop_first();
        if outcomes[0] is Err {
            assert(outcome_view(outcomes[0]) == first_failure(outcomes));
        } else {
            lemma_first_failure(rest);
            assert forall|i: int| 0 < i < outcomes.len() implies outcomes[i] == #[trigger] rest[i
                - 1] by {}
            if let Err(error) = first_failure(outcomes) {
                let i = choose|i: int|
                    {
                        &&& 0 <= i < rest.len()
                        &&& outcome_view(#[trigger] rest[i]) == Err::<(), ErrorView>(error)
                        &&& forall|j: int| 0 <= j < i ==> #[trigger] rest[j] is Ok
                    };
                assert(outcome_view(outcomes[i + 1]) == Err::<(), ErrorView>(error));
                assert forall|j: int| 0 <= j < i + 1 implies #[trigger] outcomes[j] is Ok by {
                    if j > 0 {
                        assert(rest[j - 1] is Ok);
                    }
                }
            } else {
                assert forall|i: int|
                    0 <= i < outcomes.len() implies #[trigger] outcomes[i] is Ok by {
                    if i > 0 {
                        assert(rest[i - 1] is Ok);
                    }
                }
            }
        }
    }
}

/// Whether running a node can come out as `outcome`.
pub open spec fn node_can_give<S, N: AgentNode<S>>(
    node: N,
    state: Arc<S>,
    outcome: Result<(), ErrorView>,
) -> bool {
    exists|returned: Result<(), LangGraphError>| #[trigger]
        call_ensures(N::apply, (&node, state), returned) && outcome_view(returned) == outcome
}

/// A step fails with an error that one of its nodes returned, and succeeds if
/// all of them do.
pub proof fn a_step_comes_out_as_its_nodes<S, N: AgentNode<S>, R: Fn(&S) -> String>(
    graph: GraphView<N, R>,
    state: Arc<S>,
    at: Position,
    record: StepRecord,
)
    requires
        step_can_be(graph, state, at, record),
    ensures
        ({
            let nodes = graph.runnable(graph.entered(at).current);
            if record.outcome is Ok {
                forall|name: Name| #[trigger]
                    nodes.contains(name) ==> node_can_give(graph.nodes[name], state, Ok(()))
            } else {
                exists|name: Name| #[trigger]
                    nodes.contains(name) && node_can_give(
                        graph.nodes[name],
                        state,
                        record.outcome,
                    )
            }
        }),
{
    let nodes = graph.runnable(graph.entered(at).current);
    let (order, outcomes) = choose|order: Seq<Name>, outcomes: Seq<Result<(), LangGraphError>>|
        #![trigger order.to_set(), first_failure(outcomes)]
        {
            &&& order.no_duplicates()
            &&& order.to_set() == nodes
            &&& outcomes.len() == order.len()
            &&& forall|i: int|
                0 <= i < order.len() ==> call_ensures(
                    N::apply,
                    (&graph.nodes[order[i]], state),
                    #[trigger] outcomes[i],
                )
            &&& record.outcome == first_failure(outcomes)
        };
    lemma_first_failure(outcomes);
    if let Err(error) = record.outcome {
        let i = choose|i: int|
            {
                &&& 0 <= i < outcomes.len()
                &&& outcome_view(#[trigger] outcomes[i]) == Err::<(), ErrorView>(error)
            };
        assert(order.contains(order[i]));
        assert(nodes.contains(order[i]));
        assert(node_can_give(graph.nodes[order[i]], state, record.outcome));
    } else {
        assert forall|name: Name| #[trigger] nodes.contains(name) implies node_can_give(
            graph.nodes[name],
            state,
            Ok(()),
        ) by {
            assert(order.contains(name));
            let i = order.index_of(name);
            assert(outcomes[i] is Ok);
        }
    }
}

/// If no node of the graph ever fails on a state, no step of a run on it does.
pub proof fn sound_nodes_make_sound_runs<S, N: AgentNode<S>, R: Fn(&S) -> String>(
    graph: GraphView<N, R>,
    state: Arc<S>,
    records: Seq<StepRecord>,
)
    requires
        steps_can_be(graph, state, records),
        forall|name: Name, returned: Result<(), LangGraphError>|
            graph.registered(name) && #[trigger] call_ensures(
                N::apply,
                (&graph.nodes[name], state),
                returned,
            ) ==> returned is Ok,
    ensures
        !failed(records),
{
    if failed(records) {
        let at = graph.position(records.drop_last());
        a_step_comes_out_as_its_nodes(graph, state, at, records.last());
        let name = choose|name: Name| #[trigger]
            graph.runnable(graph.entered(at).current).contains(name) && node_can_give(
                graph.nodes[name],
                state,
                records.last().outcome,
            );
        assert(graph.registered(name));
    }
}

/// The step that an event is of, if it is of one. The end of a run is of the
/// last step that was begun.
pub open spec fn step_of(event: EventView) -> Option<nat> {
    match event {
        EventView::WorkflowStarted => None,
        EventView::StepStarted { step, .. } => Some(step),
        EventView::NodeStarted { step, .. } => Some(step),
        EventView::NodeFinished { step, .. } => Some(step),
        EventView::RoutingDecision { step, .. } => Some(step),
        EventView::WorkflowFinished { total_steps } => Some(total_steps),
        EventView::WorkflowError { step, .. } => Some(step),
    }
}

/// Whether the events of a log come in the order of their steps, and the
/// routing of a step comes last in it.
pub open spec fn in_step_order(log: Seq<EventView>) -> bool {
    forall|i: int, j: int|
        #![trigger log[i], log[j]]
        0 <= i < j < log.len() && step_of(log[i]) is Some ==> {
            &&& step_of(log[j]) is Some
            &&& step_of(log[i])->0 <= step_of(log[j])->0
            &&& log[i] is RoutingDecision && step_of(log[j])->0 == step_of(log[i])->0
                ==> log[j].terminal()
        }
}

/// The events of steps come in the order of the steps.
proof fn lemma_steps_log_in_order<N, R>(graph: GraphView<N, R>, records: Seq<StepRecord>)
    requires
        node_logs(graph, records),
    ensures
        in_step_order(graph.steps_log(records)),
        forall|i: int|
            0 <= i < graph.steps_log(records).len() ==> {
                &&& step_of(#[trigger] graph.steps_log(records)[i]) is Some
                &&& step_of(graph.steps_log(records)[i])->0 <= records.len()
            },
    decreases records.len(),
{
    if records.len() > 0 {
        let before = records.drop_last();
        let at = graph.position(before);
        let log = graph.step_log(at, records.last());
        let earlier = graph.steps_log(before);
        let all = graph.steps_log(records);
        lemma_steps_log_in_order(graph, before);
        steps_are_counted(graph, before);
        assert forall|i: int| 0 <= i < log.len() implies {
            &&& step_of(#[trigger] log[i]) == Some(records.len())
            &&& log[i] is RoutingDecision ==> i == log.len() - 1
        } by {
            let nodes = graph.runnable(graph.entered(at).current);
            if i < log.len() - 1 && i > 0 {
                assert(log[i] == records.last().node_events[i - 1]);
            }
        }
        assert forall|i: int|
            0 <= i < all.len() implies #[trigger] all[i] == (if i < earlier.len() {
            earlier[i]
        } else {
            log[i - earlier.len()]
        }) by {}
    }
}

/// The events of a streamed run come in the order of its steps: what belongs to
/// a step comes before what belongs to a later one, and where control goes from
/// a step is told last.
pub proof fn a_stream_is_told_in_step_order<N, R>(
    graph: GraphView<N, R>,
    records: Seq<StepRecord>,
)
    requires
        graph.stream_run(records),
        node_logs(graph, records),
    ensures
        in_step_order(graph.stream_log(records)),
{
    let steps = graph.steps_log(records);
    let log = graph.stream_log(records);
    lemma_steps_log_in_order(graph, records);
    steps_are_counted(graph, records);
    assert forall|i: int| 0 < i <= steps.len() implies #[trigger] log[i] == steps[i - 1] by {}
}

} // verus!

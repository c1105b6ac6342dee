//! When two runs come out the same.
//!
//! What nodes and routers do is up to them. Runs whose steps agree, one by one,
//! go the same way and come to the same end, be they batches or streams. Steps
//! agree if nodes and routers can only do the same on the states of both runs,
//! and also if all that they do depends on the contents of the state alone, and
//! both runs start from equal contents.

use std::sync::Arc;

use vstd::prelude::*;

use crate::agent_node::AgentNode;
use crate::error::ErrorView;
use crate::execution::{
    failed, router_can_give, routers_can_give, step_can_be, steps_can_be, EventView, Position,
    StepRecord,
};
use crate::laws::{
    a_step_comes_out_as_its_nodes, lemma_going_on, lemma_going_succeeds, node_can_give,
    steps_are_counted,
};
use crate::model::GraphView;
use crate::names::Name;

verus! {

/// Whether a set holds at most one name.
pub open spec fn lone(names: Set<Name>) -> bool {
    forall|a: Name, b: Name| #[trigger] names.contains(a) && #[trigger] names.contains(b) ==> a == b
}

/// Whether two runs are at the same position after each number of steps that
/// both have left behind.
pub open spec fn same_way<N, R>(
    graph: GraphView<N, R>,
    records: Seq<StepRecord>,
    others: Seq<StepRecord>,
) -> bool {
    forall|k: int|
        0 <= k <= records.len() && k <= others.len() && (k < records.len() || !failed(records))
            ==> graph.position(#[trigger] records.take(k)) == graph.position(others.take(k))
}

/// Whether two steps from a position both fail, or both lead to the same names.
pub open spec fn steps_in_step<N, R>(
    graph: GraphView<N, R>,
    at: Position,
    x: StepRecord,
    y: StepRecord,
) -> bool {
    let current = graph.entered(at).current;
    &&& x.outcome is Ok <==> y.outcome is Ok
    &&& x.outcome is Ok ==> graph.successors(current, x.routes) == graph.successors(
        current,
        y.routes,
    )
}

/// Whether two runs keep in step: wherever both are at the same position after
/// the same number of steps, both steps from there fail, or both lead to the
/// same names.
pub open spec fn in_step<N, R>(
    graph: GraphView<N, R>,
    records: Seq<StepRecord>,
    others: Seq<StepRecord>,
) -> bool {
    forall|k: int|
        0 <= k < records.len() && k < others.len() && graph.position(#[trigger] records.take(k))
            == graph.position(others.take(k)) ==> steps_in_step(
            graph,
            graph.position(records.take(k)),
            records[k],
            others[k],
        )
}

/// Whether two runs agree: they keep in step, and if both fail in a step from
/// the same position, it is with the same error.
pub open spec fn agree<N, R>(
    graph: GraphView<N, R>,
    records: Seq<StepRecord>,
    others: Seq<StepRecord>,
) -> bool {
    &&& in_step(graph, records, others)
    &&& forall|k: int|
        0 <= k < records.len() && k < others.len() && graph.position(#[trigger] records.take(k))
            == graph.position(others.take(k)) ==> records[k].outcome == others[k].outcome
}

/// Whether steps in which no node runs succeed.
pub open spec fn idle_steps_succeed<N, R>(
    graph: GraphView<N, R>,
    records: Seq<StepRecord>,
) -> bool {
    forall|k: int|
        0 <= k < records.len() && graph.runnable(
            graph.entered(graph.position(#[trigger] records.take(k))).current,
        ) == Set::<Name>::empty() ==> records[k].outcome is Ok
}

/// Whether a run stops at a position: a batch, or else a stream.
spec fn stops<N, R>(graph: GraphView<N, R>, batch: bool, at: Position) -> bool {
    if batch {
        graph.batch_stops(at)
    } else {
        graph.stream_stops(at)
    }
}

/// Whether a run stops nowhere before its end, and only its last step can fail.
spec fn way_of<N, R>(graph: GraphView<N, R>, batch: bool, records: Seq<StepRecord>) -> bool {
    &&& forall|k: int|
        0 <= k < records.len() ==> !stops(
            graph,
            batch,
            graph.position(#[trigger] records.take(k)),
        )
    &&& forall|i: int|
        0 <= i < records.len() && (i < records.len() - 1 || !failed(records))
            ==> #[trigger] records[i].outcome is Ok
    &&& !failed(records) ==> stops(
        graph,
        batch,
        graph.position(records.take(records.len() as int)),
    )
}

/// That is so of every run.
proof fn lemma_way<N, R>(
    graph: GraphView<N, R>,
    batch: bool,
    records: Seq<StepRecord>,
    result: Result<(), ErrorView>,
)
    requires
        batch ==> graph.batch_run(records, result),
        !batch ==> graph.stream_run(records),
    ensures
        way_of(graph, batch, records),
{
    let steps = if failed(records) {
        records.drop_last()
    } else {
        records
    };
    assert forall|k: int| 0 <= k < records.len() implies !stops(
        graph,
        batch,
        graph.position(#[trigger] records.take(k)),
    ) by {
        if k < steps.len() {
            lemma_going_on(graph, steps, k);
            assert(steps.take(k) =~= records.take(k));
        } else {
            assert(records.take(k) =~= steps);
        }
    }
    assert forall|i: int|
        0 <= i < records.len() && (i < records.len() - 1 || !failed(
            records,
        )) implies #[trigger] records[i].outcome is Ok by {
        lemma_going_succeeds(graph, steps, i);
        assert(steps[i] == records[i]);
    }
    assert(records.take(records.len() as int) =~= records);
}

/// Runs that keep in step are at the same position after as many steps that
/// succeed.
proof fn lemma_in_step_positions<N, R>(
    graph: GraphView<N, R>,
    records: Seq<StepRecord>,
    others: Seq<StepRecord>,
    k: int,
)
    requires
        in_step(graph, records, others),
        0 <= k <= records.len(),
        k <= others.len(),
        forall|i: int| 0 <= i < k ==> #[trigger] records[i].outcome is Ok,
    ensures
        graph.position(records.take(k)) == graph.position(others.take(k)),
    decreases k,
{
    if k > 0 {
        lemma_in_step_positions(graph, records, others, k - 1);
        assert(records[k - 1].outcome is Ok);
        assert(records.take(k).drop_last() =~= records.take(k - 1));
        assert(others.take(k).drop_last() =~= others.take(k - 1));
    }
}

/// To keep in step is mutual.
proof fn lemma_in_step_is_mutual<N, R>(
    graph: GraphView<N, R>,
    records: Seq<StepRecord>,
    others: Seq<StepRecord>,
)
    requires
        in_step(graph, records, others),
    ensures
        in_step(graph, others, records),
{
    assert forall|k: int|
        0 <= k < others.len() && k < records.len() && graph.position(#[trigger] others.take(k))
            == graph.position(records.take(k)) implies steps_in_step(
        graph,
        graph.position(others.take(k)),
        others[k],
        records[k],
    ) by {
        assert(steps_in_step(graph, graph.position(records.take(k)), records[k], others[k]));
    }
}

/// A run is no shorter than one that keeps in step with it and that stops
/// wherever it does.
proof fn lemma_no_shorter<N, R>(
    graph: GraphView<N, R>,
    batch: bool,
    records: Seq<StepRecord>,
    other_batch: bool,
    others: Seq<StepRecord>,
)
    requires
        in_step(graph, records, others),
        way_of(graph, batch, records),
        way_of(graph, other_batch, others),
        batch ==> other_batch,
    ensures
        records.len() >= others.len(),
{
    let n = records.len() as int;
    if n < others.len() {
        if failed(records) {
            lemma_in_step_positions(graph, records, others, n - 1);
            assert(others[n - 1].outcome is Ok);
        } else {
            lemma_in_step_positions(graph, records, others, n);
            assert(!stops(graph, other_batch, graph.position(others.take(n))));
        }
    }
}

/// Runs that keep in step go the same way as far as the shorter one goes, and if
/// that one fails in a step, so does the other in the same step.
proof fn lemma_same_way<N, R>(
    graph: GraphView<N, R>,
    batch: bool,
    records: Seq<StepRecord>,
    other_batch: bool,
    others: Seq<StepRecord>,
)
    requires
        in_step(graph, records, others),
        way_of(graph, batch, records),
        way_of(graph, other_batch, others),
        records.len() <= others.len(),
    ensures
        same_way(graph, records, others),
        records.len() == others.len() ==> failed(records) == failed(others),
        failed(records) ==> others[records.len() - 1].outcome is Err,
        !failed(records) ==> graph.position(records) == graph.position(
            others.take(records.len() as int),
        ),
        failed(records) ==> graph.position(records.drop_last()) == graph.position(
            others.take(records.len() - 1),
        ),
{
    let n = records.len() as int;
    assert forall|k: int|
        0 <= k <= n && k <= others.len() && (k < n || !failed(records)) implies graph.position(
        #[trigger] records.take(k),
    ) == graph.position(others.take(k)) by {
        lemma_in_step_positions(graph, records, others, k);
    }
    assert(records.take(n) =~= records);
    if n > 0 {
        assert(records.take(n - 1) =~= records.drop_last());
        assert(graph.position(records.take(n - 1)) == graph.position(others.take(n - 1)));
        assert(steps_in_step(
            graph,
            graph.position(records.take(n - 1)),
            records[n - 1],
            others[n - 1],
        ));
    }
    if !failed(records) {
        assert(graph.position(records.take(n)) == graph.position(others.take(n)));
    }
}

/// Two batch runs that keep in step.
proof fn lemma_batches_in_step<N, R>(
    graph: GraphView<N, R>,
    records: Seq<StepRecord>,
    others: Seq<StepRecord>,
    results: (Result<(), ErrorView>, Result<(), ErrorView>),
)
    requires
        in_step(graph, records, others),
        graph.batch_run(records, results.0),
        graph.batch_run(others, results.1),
    ensures
        records.len() == others.len(),
        failed(records) == failed(others),
        same_way(graph, records, others),
        results.0 is Ok <==> results.1 is Ok,
        !failed(records) ==> results.0 == results.1,
{
    lemma_in_step_is_mutual(graph, records, others);
    lemma_way(graph, true, records, results.0);
    lemma_way(graph, true, others, results.1);
    lemma_no_shorter(graph, true, records, true, others);
    lemma_no_shorter(graph, true, others, true, records);
    lemma_same_way(graph, true, records, true, others);
    assert(others.take(others.len() as int) =~= others);
}

/// Two streamed runs that keep in step.
proof fn lemma_streams_in_step<N, R>(
    graph: GraphView<N, R>,
    records: Seq<StepRecord>,
    others: Seq<StepRecord>,
)
    requires
        in_step(graph, records, others),
        graph.stream_run(records),
        graph.stream_run(others),
    ensures
        records.len() == others.len(),
        failed(records) == failed(others),
        same_way(graph, records, others),
        !failed(records) || records.last().outcome == others.last().outcome
            ==> graph.stream_log(records).last() == graph.stream_log(others).last(),
{
    lemma_in_step_is_mutual(graph, records, others);
    lemma_way(graph, false, records, Ok(()));
    lemma_way(graph, false, others, Ok(()));
    lemma_no_shorter(graph, false, records, false, others);
    lemma_no_shorter(graph, false, others, false, records);
    lemma_same_way(graph, false, records, false, others);
    assert(others.take(others.len() as int) =~= others);
    if failed(records) {
        assert(others.take(others.len() - 1) =~= others.drop_last());
    }
}

/// A streamed run that comes to names of which the graph knows none takes one
/// more step, in which no node runs, and fails.
proof fn lemma_lost_streams_fail<N, R>(
    graph: GraphView<N, R>,
    records: Seq<StepRecord>,
    k: int,
)
    requires
        idle_steps_succeed(graph, records),
        graph.stream_run(records),
        0 <= k < records.len(),
        graph.lost(graph.position(records.take(k))),
    ensures
        records.len() == k + 1,
        !failed(records),
        graph.stream_log(records).last() is WorkflowError,
        graph.runnable(graph.entered(graph.position(records.take(k))).current) == Set::<
            Name,
        >::empty(),
{
    let at = graph.position(records.take(k));
    let entered = graph.entered(at);
    let record = records[k];
    lemma_way(graph, false, records, Ok(()));
    assert(graph.runnable(entered.current) =~= Set::<Name>::empty()) by {
        assert forall|name: Name| !graph.runnable(entered.current).contains(name) by {
            if graph.runnable(entered.current).contains(name) {
                assert(!graph.known(name));
            }
        }
    }
    assert(record.outcome is Ok);
    let next = graph.successors(entered.current, record.routes);
    assert(next =~= Set::<Name>::empty()) by {
        assert forall|target: Name| !next.contains(target) by {
            if next.contains(target) {
                let from = choose|from: Name| #[trigger]
                    entered.current.contains(from) && graph.leads_to(from, record.routes, target);
                assert(!graph.known(from));
            }
        }
    }
    let after = records.take(k + 1);
    assert(after.drop_last() =~= records.take(k));
    assert(graph.position(after) == graph.stepped(at, record));
    assert(graph.entered(graph.position(after)).current =~= Set::<Name>::empty());
    assert(graph.stream_stops(graph.position(after)));
    if k + 1 < records.len() {
        assert(!graph.stream_stops(graph.position(records.take(k + 1))));
    }
    assert(after =~= records);
}

/// How a batch run and a streamed run compare that keep in step.
///
/// They take the same steps through the same positions, and both fail in a step
/// or neither does. Only where markers led to nothing but names that the graph
/// does not know, and the end was not reached, the batch stops with an error
/// about them, while the stream takes one more step, in which no node runs, and
/// fails too. So what succeeds as a stream succeeds as a batch.
pub open spec fn batch_matches_stream<N, R>(
    graph: GraphView<N, R>,
    batch: Seq<StepRecord>,
    result: Result<(), ErrorView>,
    stream: Seq<StepRecord>,
) -> bool {
    let last = graph.stream_log(stream).last();
    &&& failed(batch) == failed(stream)
    &&& same_way(graph, batch, stream)
    &&& last is WorkflowFinished ==> result is Ok
    &&& failed(batch) ==> {
        &&& batch.len() == stream.len()
        &&& result is Err
        &&& last matches EventView::WorkflowError { step, error } && step == stream.len()
    }
    &&& !failed(batch) ==> {
        let at = graph.position(batch);
        if !graph.exhausted(at) && graph.lost(at) {
            &&& stream.len() == batch.len() + 1
            &&& graph.runnable(graph.entered(at).current) == Set::<Name>::empty()
            &&& result matches Err(ErrorView::NotFound(_))
            &&& last is WorkflowError
        } else {
            stream.len() == batch.len()
        }
    }
}

/// A batch run and a streamed run that keep in step.
proof fn lemma_batch_and_stream_in_step<N, R>(
    graph: GraphView<N, R>,
    batch: Seq<StepRecord>,
    result: Result<(), ErrorView>,
    stream: Seq<StepRecord>,
)
    requires
        in_step(graph, batch, stream),
        idle_steps_succeed(graph, stream),
        graph.batch_run(batch, result),
        graph.stream_run(stream),
    ensures
        batch_matches_stream(graph, batch, result, stream),
        failed(batch) ==> result == batch.last().outcome && graph.stream_log(stream).last() == (
        EventView::WorkflowError { step: stream.len(), error: stream.last().outcome->Err_0 }),
{
    lemma_in_step_is_mutual(graph, batch, stream);
    lemma_way(graph, true, batch, result);
    lemma_way(graph, false, stream, result);
    lemma_no_shorter(graph, false, stream, true, batch);
    lemma_same_way(graph, true, batch, false, stream);
    steps_are_counted(graph, stream.drop_last());
    let (b, s) = (batch.len() as int, stream.len() as int);
    assert(batch.take(b) =~= batch);
    assert(stream.take(s) =~= stream);
    if failed(batch) {
        assert(stream[b - 1].outcome is Err);
        assert(s == b);
    } else if b < s {
        assert(!stops(graph, false, graph.position(stream.take(b))));
        assert(graph.lost(graph.position(batch)));
        lemma_lost_streams_fail(graph, stream, b);
    }
}

/// Two batch runs whose steps agree take the same steps through the same
/// positions and have the same result, whatever state they work on and however
/// nodes and routers come to what they return.
pub proof fn equal_steps_equal_batches<N, R>(
    graph: GraphView<N, R>,
    records: Seq<StepRecord>,
    others: Seq<StepRecord>,
    results: (Result<(), ErrorView>, Result<(), ErrorView>),
)
    requires
        agree(graph, records, others),
        graph.batch_run(records, results.0),
        graph.batch_run(others, results.1),
    ensures
        records.len() == others.len(),
        failed(records) == failed(others),
        same_way(graph, records, others),
        results.0 == results.1,
{
    lemma_batches_in_step(graph, records, others, results);
    lemma_last_outcomes_agree(graph, records, others);
}

/// If two runs of one length agree and go the same way, their last steps come
/// out the same.
proof fn lemma_last_outcomes_agree<N, R>(
    graph: GraphView<N, R>,
    records: Seq<StepRecord>,
    others: Seq<StepRecord>,
)
    requires
        agree(graph, records, others),
        records.len() == others.len(),
        same_way(graph, records, others),
    ensures
        records.len() > 0 ==> records.last().outcome == others.last().outcome,
{
    if records.len() > 0 {
        let k = records.len() - 1;
        assert(graph.position(records.take(k)) == graph.position(others.take(k)));
        assert(records[k].outcome == others[k].outcome);
    }
}

/// Two streamed runs whose steps agree take the same steps through the same
/// positions and end with the same event.
pub proof fn equal_steps_equal_streams<N, R>(
    graph: GraphView<N, R>,
    records: Seq<StepRecord>,
    others: Seq<StepRecord>,
)
    requires
        agree(graph, records, others),
        graph.stream_run(records),
        graph.stream_run(others),
    ensures
        records.len() == others.len(),
        failed(records) == failed(others),
        same_way(graph, records, others),
        graph.stream_log(records).last() == graph.stream_log(others).last(),
{
    lemma_streams_in_step(graph, records, others);
    lemma_last_outcomes_agree(graph, records, others);
}

/// A batch run and a streamed run whose steps agree match, and a step that
/// fails gives both the same error.
pub proof fn equal_steps_equal_ends<N, R>(
    graph: GraphView<N, R>,
    batch: Seq<StepRecord>,
    result: Result<(), ErrorView>,
    stream: Seq<StepRecord>,
)
    requires
        agree(graph, batch, stream),
        idle_steps_succeed(graph, stream),
        graph.batch_run(batch, result),
        graph.stream_run(stream),
    ensures
        batch_matches_stream(graph, batch, result, stream),
        failed(batch) ==> graph.stream_log(stream).last() == (EventView::WorkflowError {
            step: stream.len(),
            error: result->Err_0,
        }),
{
    lemma_batch_and_stream_in_step(graph, batch, result, stream);
    if failed(batch) {
        lemma_last_outcomes_agree(graph, batch, stream);
    }
}

/// Whether nodes and routers of the graph can only do the same on both states.
/// With one state in both places: whether they can do only one thing on it.
pub open spec fn alike<S, N: AgentNode<S>, R: Fn(&S) -> String>(
    graph: GraphView<N, R>,
    state: Arc<S>,
    other: Arc<S>,
) -> bool {
    &&& forall|name: Name, a: Result<(), ErrorView>, b: Result<(), ErrorView>|
        graph.registered(name) && #[trigger] node_can_give(graph.nodes[name], state, a)
            && #[trigger] node_can_give(graph.nodes[name], other, b) ==> a == b
    &&& forall|name: Name, i: int, a: Name, b: Name|
        graph.routers.dom().contains(name) && 0 <= i < graph.routers[name].len()
            && #[trigger] router_can_give(graph.routers[name][i], &*state, a)
            && #[trigger] router_can_give(graph.routers[name][i], &*other, b) ==> a == b
}

/// If routers return the same, control goes to the same names.
proof fn lemma_equal_routes<N, R>(
    graph: GraphView<N, R>,
    current: Set<Name>,
    routes: Map<Name, Seq<Name>>,
    others: Map<Name, Seq<Name>>,
)
    requires
        forall|name: Name|
            current.contains(name) && graph.routers.dom().contains(name)
                ==> #[trigger] routes[name] == others[name],
    ensures
        graph.successors(current, routes) == graph.successors(current, others),
{
    let (one, two) = (graph.successors(current, routes), graph.successors(current, others));
    assert forall|target: Name| one.contains(target) <==> two.contains(target) by {
        if one.contains(target) {
            let from = choose|from: Name| #[trigger]
                current.contains(from) && graph.leads_to(from, routes, target);
            assert(graph.leads_to(from, others, target));
        }
        if two.contains(target) {
            let from = choose|from: Name| #[trigger]
                current.contains(from) && graph.leads_to(from, others, target);
            assert(routes[from] == others[from] || !graph.routers.dom().contains(from));
            assert(graph.leads_to(from, routes, target));
        }
    }
    assert(one =~= two);
}

/// From the same position, steps on states that are alike come out alike.
proof fn lemma_alike_steps<S, N: AgentNode<S>, R: Fn(&S) -> String>(
    graph: GraphView<N, R>,
    state: Arc<S>,
    other: Arc<S>,
    at: Position,
    x: StepRecord,
    y: StepRecord,
)
    requires
        alike(graph, state, other),
        step_can_be(graph, state, at, x),
        step_can_be(graph, other, at, y),
    ensures
        steps_in_step(graph, at, x, y),
        lone(graph.runnable(graph.entered(at).current)) ==> x.outcome == y.outcome,
{
    let current = graph.entered(at).current;
    let nodes = graph.runnable(current);
    let well = Ok::<(), ErrorView>(());
    a_step_comes_out_as_its_nodes(graph, state, at, x);
    a_step_comes_out_as_its_nodes(graph, other, at, y);
    if x.outcome is Err {
        let name = choose|name: Name| #[trigger]
            nodes.contains(name) && node_can_give(graph.nodes[name], state, x.outcome);
        assert(graph.registered(name));
        if y.outcome is Ok {
            assert(node_can_give(graph.nodes[name], other, well));
            assert(false);
        }
    }
    if y.outcome is Err {
        let name = choose|name: Name| #[trigger]
            nodes.contains(name) && node_can_give(graph.nodes[name], other, y.outcome);
        assert(graph.registered(name));
        if x.outcome is Ok {
            assert(node_can_give(graph.nodes[name], state, well));
            assert(false);
        }
        if lone(nodes) {
            let same = choose|name: Name| #[trigger]
                nodes.contains(name) && node_can_give(graph.nodes[name], state, x.outcome);
            assert(same == name);
            assert(node_can_give(graph.nodes[name], state, x.outcome));
            assert(x.outcome == y.outcome);
        }
    }
    if x.outcome is Ok {
        assert(x.outcome->Ok_0 == () && y.outcome->Ok_0 == ());
        assert forall|name: Name|
            current.contains(name) && graph.routers.dom().contains(
                name,
            ) implies x.routes[name] == y.routes[name] by {
            let (a, b) = (x.routes[name], y.routes[name]);
            assert(routers_can_give(graph.routers[name], &*state, a));
            assert(routers_can_give(graph.routers[name], &*other, b));
            assert forall|i: int| 0 <= i < a.len() implies a[i] == b[i] by {
                assert(router_can_give(graph.routers[name][i], &*state, a[i]));
                assert(router_can_give(graph.routers[name][i], &*other, b[i]));
            }
            assert(a =~= b);
        }
        lemma_equal_routes(graph, current, x.routes, y.routes);
    }
}

/// What can be of all steps can be of the first of them, and of each.
proof fn lemma_take_can_be<S, N: AgentNode<S>, R: Fn(&S) -> String>(
    graph: GraphView<N, R>,
    state: Arc<S>,
    records: Seq<StepRecord>,
    k: int,
)
    requires
        steps_can_be(graph, state, records),
        0 <= k < records.len(),
    ensures
        step_can_be(graph, state, graph.position(records.take(k)), records[k]),
    decreases records.len(),
{
    let before = records.drop_last();
    assert(before.take(k) =~= records.take(k));
    if k < before.len() {
        lemma_take_can_be(graph, state, before, k);
    } else {
        assert(records.take(k) =~= before);
    }
}

/// Steps in which no node runs succeed.
proof fn lemma_idle_steps_succeed<S, N: AgentNode<S>, R: Fn(&S) -> String>(
    graph: GraphView<N, R>,
    state: Arc<S>,
    records: Seq<StepRecord>,
)
    requires
        steps_can_be(graph, state, records),
    ensures
        idle_steps_succeed(graph, records),
{
    assert forall|k: int|
        0 <= k < records.len() && graph.runnable(
            graph.entered(graph.position(#[trigger] records.take(k))).current,
        ) == Set::<Name>::empty() implies records[k].outcome is Ok by {
        lemma_take_can_be(graph, state, records, k);
        a_step_comes_out_as_its_nodes(
            graph,
            state,
            graph.position(records.take(k)),
            records[k],
        );
    }
}

/// Runs on states that are alike keep in step, and they agree on the error of a
/// step in which one node runs.
proof fn lemma_alike_in_step<S, N: AgentNode<S>, R: Fn(&S) -> String>(
    graph: GraphView<N, R>,
    state: Arc<S>,
    other: Arc<S>,
    records: Seq<StepRecord>,
    others: Seq<StepRecord>,
)
    requires
        alike(graph, state, other),
        steps_can_be(graph, state, records),
        steps_can_be(graph, other, others),
    ensures
        in_step(graph, records, others),
        forall|k: int|
            0 <= k < records.len() && k < others.len() && graph.position(
                #[trigger] records.take(k),
            ) == graph.position(others.take(k)) && lone(
                graph.runnable(graph.entered(graph.position(records.take(k))).current),
            ) ==> records[k].outcome == others[k].outcome,
{
    assert forall|k: int|
        0 <= k < records.len() && k < others.len() && graph.position(#[trigger] records.take(k))
            == graph.position(others.take(k)) implies {
        let at = graph.position(records.take(k));
        &&& steps_in_step(graph, at, records[k], others[k])
        &&& lone(graph.runnable(graph.entered(at).current)) ==> records[k].outcome
            == others[k].outcome
    } by {
        lemma_take_can_be(graph, state, records, k);
        lemma_take_can_be(graph, other, others, k);
        lemma_alike_steps(
            graph,
            state,
            other,
            graph.position(records.take(k)),
            records[k],
            others[k],
        );
    }
}

/// The nodes that ran in the last step, if it failed.
pub open spec fn contenders<N, R>(graph: GraphView<N, R>, records: Seq<StepRecord>) -> Set<Name> {
    if failed(records) {
        graph.runnable(graph.entered(graph.position(records.drop_last())).current)
    } else {
        Set::empty()
    }
}

/// Two batch runs of a graph, on states on which its nodes and routers can only
/// do the same, take the same steps through the same positions, and both fail
/// or neither does. The result is the same, unless several nodes of a step
/// compete for the error.
pub proof fn equal_states_equal_batches<S, N: AgentNode<S>, R: Fn(&S) -> String>(
    graph: GraphView<N, R>,
    state: Arc<S>,
    other: Arc<S>,
    records: Seq<StepRecord>,
    others: Seq<StepRecord>,
    results: (Result<(), ErrorView>, Result<(), ErrorView>),
)
    requires
        alike(graph, state, other),
        steps_can_be(graph, state, records),
        steps_can_be(graph, other, others),
        graph.batch_run(records, results.0),
        graph.batch_run(others, results.1),
    ensures
        records.len() == others.len(),
        failed(records) == failed(others),
        same_way(graph, records, others),
        results.0 is Ok <==> results.1 is Ok,
        lone(contenders(graph, records)) ==> results.0 == results.1,
{
    lemma_alike_in_step(graph, state, other, records, others);
    lemma_batches_in_step(graph, records, others, results);
    if failed(records) {
        let k = records.len() - 1;
        assert(records.take(k) =~= records.drop_last());
        assert(graph.position(records.take(k)) == graph.position(others.take(k)));
    }
}

/// Two streamed runs of a graph, on states on which its nodes and routers can
/// only do the same, take the same steps through the same positions. They end
/// with the same event, unless several nodes of a step compete for the error.
pub proof fn equal_states_equal_streams<S, N: AgentNode<S>, R: Fn(&S) -> String>(
    graph: GraphView<N, R>,
    state: Arc<S>,
    other: Arc<S>,
    records: Seq<StepRecord>,
    others: Seq<StepRecord>,
)
    requires
        alike(graph, state, other),
        steps_can_be(graph, state, records),
        steps_can_be(graph, other, others),
        graph.stream_run(records),
        graph.stream_run(others),
    ensures
        records.len() == others.len(),
        failed(records) == failed(others),
        same_way(graph, records, others),
        lone(contenders(graph, records)) ==> graph.stream_log(records).last()
            == graph.stream_log(others).last(),
{
    lemma_alike_in_step(graph, state, other, records, others);
    lemma_streams_in_step(graph, records, others);
    if failed(records) {
        let k = records.len() - 1;
        assert(records.take(k) =~= records.drop_last());
        assert(graph.position(records.take(k)) == graph.position(others.take(k)));
    }
}

/// A batch run and a streamed run of a graph, on states on which its nodes and
/// routers can only do the same, match. The error of a step is the same, unless
/// several nodes compete for it.
pub proof fn batch_and_stream_agree<S, N: AgentNode<S>, R: Fn(&S) -> String>(
    graph: GraphView<N, R>,
    state: Arc<S>,
    other: Arc<S>,
    batch: Seq<StepRecord>,
    result: Result<(), ErrorView>,
    stream: Seq<StepRecord>,
)
    requires
        alike(graph, state, other),
        steps_can_be(graph, state, batch),
        steps_can_be(graph, other, stream),
        graph.batch_run(batch, result),
        graph.stream_run(stream),
    ensures
        batch_matches_stream(graph, batch, result, stream),
        failed(batch) && lone(contenders(graph, batch)) ==> graph.stream_log(stream).last() == (
        EventView::WorkflowError { step: stream.len(), error: result->Err_0 }),
{
    lemma_alike_in_step(graph, state, other, batch, stream);
    lemma_idle_steps_succeed(graph, other, stream);
    lemma_batch_and_stream_in_step(graph, batch, result, stream);
    if failed(batch) {
        let k = batch.len() - 1;
        assert(batch.take(k) =~= batch.drop_last());
        assert(graph.position(batch.take(k)) == graph.position(stream.take(k)));
    }
}

/// What nodes and routers make of the contents of a state, if nothing else
/// decides what they do.
#[verifier::reject_recursive_types(C)]
pub ghost struct Behaviour<C> {
    /// The contents that a node leaves, and how it comes out.
    pub apply: spec_fn(Name, C) -> (C, Result<(), ErrorView>),
    /// What the routers of a name return.
    pub route: spec_fn(Name, C) -> Seq<Name>,
}

impl<C> Behaviour<C> {
    /// What running `nodes`, at most one, on `contents` leaves, and how it comes
    /// out.
    pub open spec fn run(self, nodes: Set<Name>, contents: C) -> (C, Result<(), ErrorView>) {
        if nodes == Set::<Name>::empty() {
            (contents, Ok(()))
        } else {
            (self.apply)(nodes.choose(), contents)
        }
    }

    /// The contents after the steps that `records` tells of.
    pub open spec fn contents_after<N, R>(
        self,
        graph: GraphView<N, R>,
        contents: C,
        records: Seq<StepRecord>,
    ) -> C
        decreases records.len(),
    {
        if records.len() == 0 {
            contents
        } else {
            let before = records.drop_last();
            self.run(
                graph.runnable(graph.entered(graph.position(before)).current),
                self.contents_after(graph, contents, before),
            ).0
        }
    }

    /// Whether a step from a position, on `contents`, is as nodes and routers
    /// behave: at most one node runs, it comes out as it should, and the routers
    /// return what they should of the contents that it leaves.
    pub open spec fn explains_step<N, R>(
        self,
        graph: GraphView<N, R>,
        at: Position,
        contents: C,
        record: StepRecord,
    ) -> bool {
        let current = graph.entered(at).current;
        let ran = self.run(graph.runnable(current), contents);
        &&& lone(graph.runnable(current))
        &&& record.outcome == ran.1
        &&& record.outcome is Ok ==> forall|name: Name|
            current.contains(name) && graph.routers.dom().contains(name)
                ==> #[trigger] record.routes[name] == (self.route)(name, ran.0)
    }

    /// Whether every step of a run that starts on `contents` is as nodes and
    /// routers behave.
    pub open spec fn explains<N, R>(
        self,
        graph: GraphView<N, R>,
        contents: C,
        records: Seq<StepRecord>,
    ) -> bool
        decreases records.len(),
    {
        records.len() > 0 ==> {
            let before = records.drop_last();
            &&& self.explains(graph, contents, before)
            &&& self.explains_step(
                graph,
                graph.position(before),
                self.contents_after(graph, contents, before),
                records.last(),
            )
        }
    }
}

/// What explains all steps explains each of them.
proof fn lemma_explains_each<C, N, R>(
    behaviour: Behaviour<C>,
    graph: GraphView<N, R>,
    contents: C,
    records: Seq<StepRecord>,
    k: int,
)
    requires
        behaviour.explains(graph, contents, records),
        0 <= k < records.len(),
    ensures
        behaviour.explains_step(
            graph,
            graph.position(records.take(k)),
            behaviour.contents_after(graph, contents, records.take(k)),
            records[k],
        ),
    decreases records.len(),
{
    let before = records.drop_last();
    assert(before.take(k) =~= records.take(k));
    if k < before.len() {
        lemma_explains_each(behaviour, graph, contents, before, k);
    } else {
        assert(records.take(k) =~= before);
    }
}

/// Steps from the same position on the same contents agree.
proof fn lemma_explained_steps_agree<C, N, R>(
    behaviour: Behaviour<C>,
    graph: GraphView<N, R>,
    at: Position,
    contents: C,
    x: StepRecord,
    y: StepRecord,
)
    requires
        behaviour.explains_step(graph, at, contents, x),
        behaviour.explains_step(graph, at, contents, y),
    ensures
        x.outcome == y.outcome,
        steps_in_step(graph, at, x, y),
{
    if x.outcome is Ok {
        let current = graph.entered(at).current;
        assert forall|name: Name|
            current.contains(name) && graph.routers.dom().contains(
                name,
            ) implies x.routes[name] == y.routes[name] by {}
        lemma_equal_routes(graph, current, x.routes, y.routes);
    }
}

/// From contents that are equal, runs are at the same position and on equal
/// contents after as many steps that succeed.
proof fn lemma_explained_positions<C, N, R>(
    behaviour: Behaviour<C>,
    graph: GraphView<N, R>,
    contents: C,
    records: Seq<StepRecord>,
    others: Seq<StepRecord>,
    k: int,
)
    requires
        behaviour.explains(graph, contents, records),
        behaviour.explains(graph, contents, others),
        0 <= k <= records.len(),
        k <= others.len(),
        forall|i: int| 0 <= i < k ==> #[trigger] records[i].outcome is Ok,
    ensures
        graph.position(records.take(k)) == graph.position(others.take(k)),
        behaviour.contents_after(graph, contents, records.take(k)) == behaviour.contents_after(
            graph,
            contents,
            others.take(k),
        ),
    decreases k,
{
    if k > 0 {
        lemma_explained_positions(behaviour, graph, contents, records, others, k - 1);
        lemma_explains_each(behaviour, graph, contents, records, k - 1);
        lemma_explains_each(behaviour, graph, contents, others, k - 1);
        lemma_explained_steps_agree(
            behaviour,
            graph,
            graph.position(records.take(k - 1)),
            behaviour.contents_after(graph, contents, records.take(k - 1)),
            records[k - 1],
            others[k - 1],
        );
        assert(records[k - 1].outcome is Ok);
        assert(records.take(k).drop_last() =~= records.take(k - 1));
        assert(others.take(k).drop_last() =~= others.take(k - 1));
    }
}

/// Runs from contents that are equal agree, and are on equal contents after
/// each number of steps that both have taken.
proof fn lemma_explained_runs_agree<C, N, R>(
    behaviour: Behaviour<C>,
    graph: GraphView<N, R>,
    contents: C,
    batch: bool,
    records: Seq<StepRecord>,
    other_batch: bool,
    others: Seq<StepRecord>,
)
    requires
        behaviour.explains(graph, contents, records),
        behaviour.explains(graph, contents, others),
        way_of(graph, batch, records),
        way_of(graph, other_batch, others),
    ensures
        agree(graph, records, others),
        idle_steps_succeed(graph, others),
        forall|k: int|
            0 <= k <= records.len() && k <= others.len() ==> behaviour.contents_after(
                graph,
                contents,
                #[trigger] records.take(k),
            ) == behaviour.contents_after(graph, contents, others.take(k)),
{
    assert forall|k: int| 0 <= k < records.len() && k < others.len() implies {
        &&& graph.position(#[trigger] records.take(k)) == graph.position(others.take(k))
        &&& behaviour.contents_after(graph, contents, records.take(k))
            == behaviour.contents_after(graph, contents, others.take(k))
        &&& records[k].outcome == others[k].outcome
        &&& steps_in_step(graph, graph.position(records.take(k)), records[k], others[k])
    } by {
        lemma_explained_positions(behaviour, graph, contents, records, others, k);
        lemma_explains_each(behaviour, graph, contents, records, k);
        lemma_explains_each(behaviour, graph, contents, others, k);
        lemma_explained_steps_agree(
            behaviour,
            graph,
            graph.position(records.take(k)),
            behaviour.contents_after(graph, contents, records.take(k)),
            records[k],
            others[k],
        );
    }
    assert forall|k: int|
        0 <= k <= records.len() && k <= others.len() implies behaviour.contents_after(
        graph,
        contents,
        #[trigger] records.take(k),
    ) == behaviour.contents_after(graph, contents, others.take(k)) by {
        if k > 0 {
            assert(graph.position(records.take(k - 1)) == graph.position(others.take(k - 1)));
            assert(records.take(k).drop_last() =~= records.take(k - 1));
            assert(others.take(k).drop_last() =~= others.take(k - 1));
        } else {
            assert(records.take(0) =~= others.take(0));
        }
    }
    assert forall|k: int|
        0 <= k < others.len() && graph.runnable(
            graph.entered(graph.position(#[trigger] others.take(k))).current,
        ) == Set::<Name>::empty() implies others[k].outcome is Ok by {
        lemma_explains_each(behaviour, graph, contents, others, k);
    }
}

/// Two batch runs of a graph whose nodes and routers go by the contents of the
/// state alone, with at most one node in a step, that start from equal contents:
/// they take the same steps through the same positions, have the same result,
/// and leave equal contents.
pub proof fn equal_contents_equal_batches<C, N, R>(
    behaviour: Behaviour<C>,
    graph: GraphView<N, R>,
    contents: C,
    records: Seq<StepRecord>,
    others: Seq<StepRecord>,
    results: (Result<(), ErrorView>, Result<(), ErrorView>),
)
    requires
        behaviour.explains(graph, contents, records),
        behaviour.explains(graph, contents, others),
        graph.batch_run(records, results.0),
        graph.batch_run(others, results.1),
    ensures
        records.len() == others.len(),
        failed(records) == failed(others),
        same_way(graph, records, others),
        results.0 == results.1,
        behaviour.contents_after(graph, contents, records) == behaviour.contents_after(
            graph,
            contents,
            others,
        ),
{
    lemma_way(graph, true, records, results.0);
    lemma_way(graph, true, others, results.1);
    lemma_explained_runs_agree(behaviour, graph, contents, true, records, true, others);
    equal_steps_equal_batches(graph, records, others, results);
    assert(records.take(records.len() as int) =~= records);
    assert(others.take(others.len() as int) =~= others);
}

/// Two streamed runs of a graph whose nodes and routers go by the contents of
/// the state alone, with at most one node in a step, that start from equal
/// contents: they take the same steps through the same positions, end with the
/// same event, and leave equal contents.
pub proof fn equal_contents_equal_streams<C, N, R>(
    behaviour: Behaviour<C>,
    graph: GraphView<N, R>,
    contents: C,
    records: Seq<StepRecord>,
    others: Seq<StepRecord>,
)
    requires
        behaviour.explains(graph, contents, records),
        behaviour.explains(graph, contents, others),
        graph.stream_run(records),
        graph.stream_run(others),
    ensures
        records.len() == others.len(),
        failed(records) == failed(others),
        same_way(graph, records, others),
        graph.stream_log(records).last() == graph.stream_log(others).last(),
        behaviour.contents_after(graph, contents, records) == behaviour.contents_after(
            graph,
            contents,
            others,
        ),
{
    lemma_way(graph, false, records, Ok(()));
    lemma_way(graph, false, others, Ok(()));
    lemma_explained_runs_agree(behaviour, graph, contents, false, records, false, others);
    equal_steps_equal_streams(graph, records, others);
    assert(records.take(records.len() as int) =~= records);
    assert(others.take(others.len() as int) =~= others);
}

/// A batch run and a streamed run of a graph whose nodes and routers go by the
/// contents of the state alone, with at most one node in a step, that start from
/// equal contents: they match, leave equal contents, and a step that fails gives
/// both the same error.
pub proof fn equal_contents_equal_ends<C, N, R>(
    behaviour: Behaviour<C>,
    graph: GraphView<N, R>,
    contents: C,
    batch: Seq<StepRecord>,
    result: Result<(), ErrorView>,
    stream: Seq<StepRecord>,
)
    requires
        behaviour.explains(graph, contents, batch),
        behaviour.explains(graph, contents, stream),
        graph.batch_run(batch, result),
        graph.stream_run(stream),
    ensures
        batch_matches_stream(graph, batch, result, stream),
        failed(batch) ==> graph.stream_log(stream).last() == (EventView::WorkflowError {
            step: stream.len(),
            error: result->Err_0,
        }),
        behaviour.contents_after(graph, contents, batch) == behaviour.contents_after(
            graph,
            contents,
            stream,
        ),
{
    lemma_way(graph, true, batch, result);
    lemma_way(graph, false, stream, Ok(()));
    lemma_explained_runs_agree(behaviour, graph, contents, true, batch, false, stream);
    equal_steps_equal_ends(graph, batch, result, stream);
    let b = batch.len() as int;
    assert(batch.take(b) =~= batch);
    if stream.len() == b {
        assert(stream.take(b) =~= stream);
    } else {
        assert(stream.take(b) =~= stream.drop_last());
        assert(graph.position(batch.take(b)) == graph.position(stream.take(b)));
    }
}

} // verus!

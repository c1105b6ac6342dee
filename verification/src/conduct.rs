//! What graphs and runs do, said of what goes in and what comes out: of the
//! nodes, edges and names of a graph, of what nodes and routers returned, and of
//! results and events.

use std::sync::Arc;

use vstd::prelude::*;

use crate::calls::{node_gives, router_gives, Entry, Routes, Runs};
use crate::error::ErrorView;
use crate::execution::{
    applied_names, asked_entries, failed, history, node_log, node_logs, ran_entries, step_made,
    steps_made, was_asked, EventView, Origin, Position, StepRecord,
};
use crate::laws::{an_error_is_the_end, lemma_going_on, runs_keep_the_budget};
use crate::model::GraphView;
use crate::names::Name;
use crate::state_graph::{pair_names, pairs};
use crate::text::decimal;

verus! {

/// A run starts from the start names, before its first step.
pub proof fn a_run_starts<N, R>(graph: GraphView<N, R>)
    ensures
        graph.start_position().current == graph.start,
        graph.start_position().step == 0,
        !graph.start_position().reached_end,
        graph.start_position().origin == Origin::Start,
{
}

/// A step that begins is counted and works on the current names other than the
/// end. That the end was among them is remembered from then on.
pub proof fn a_step_begins<N, R>(graph: GraphView<N, R>, at: Position)
    ensures
        forall|name: Name| #[trigger]
            graph.entered(at).current.contains(name) <==> at.current.contains(name) && name
                != graph.end,
        graph.entered(at).step == at.step + 1,
        graph.entered(at).reached_end <==> at.reached_end || at.current.contains(graph.end),
        graph.entered(at).origin == at.origin,
{
}

/// Among the nodes of a step is a name if and only if it is current and there is
/// a node of that name: its edges and the other names do not matter.
pub proof fn a_step_runs_the_registered_names<N, R>(graph: GraphView<N, R>, current: Set<Name>)
    ensures
        forall|name: Name| #[trigger]
            graph.runnable(current).contains(name) <==> current.contains(name)
                && graph.nodes.dom().contains(name),
{
}

/// The list of the nodes of a step holds a name if and only if it is current and
/// there is a node of that name, then once, and with that node.
pub proof fn nodes_are_listed_by_name<N, R>(
    graph: GraphView<N, R>,
    current: Set<Name>,
    nodes: Seq<(String, &N)>,
)
    requires
        pairs(nodes, graph.nodes, graph.runnable(current)),
    ensures
        forall|name: Name|
            (exists|i: int| 0 <= i < nodes.len() && (#[trigger] nodes[i]).0@ == name)
                <==> #[trigger] current.contains(name) && graph.nodes.dom().contains(name),
        forall|i: int|
            0 <= i < nodes.len() ==> *(#[trigger] nodes[i]).1 == graph.nodes[nodes[i].0@],
        forall|i: int, j: int|
            0 <= i < j < nodes.len() ==> (#[trigger] nodes[i]).0@ != (#[trigger] nodes[j]).0@,
{
    let names = pair_names(nodes);
    assert forall|name: Name|
        (exists|i: int| 0 <= i < nodes.len() && (#[trigger] nodes[i]).0@ == name)
            <==> #[trigger] current.contains(name) && graph.nodes.dom().contains(name) by {
        assert(names.to_set().contains(name) <==> graph.runnable(current).contains(name));
        if names.contains(name) {
            let i = names.index_of(name);
            assert(nodes[i].0@ == name);
        }
        if exists|i: int| 0 <= i < nodes.len() && (#[trigger] nodes[i]).0@ == name {
            let i = choose|i: int| 0 <= i < nodes.len() && (#[trigger] nodes[i]).0@ == name;
            assert(names[i] == name);
        }
    }
    assert forall|i: int, j: int| 0 <= i < j < nodes.len() implies (#[trigger] nodes[i]).0@ != (
    #[trigger] nodes[j]).0@ by {
        assert(names[i] != names[j]);
    }
}

/// Control goes to a name if and only if it is a fixed target of one of the
/// names of the step, or what a router of one of them returned.
pub proof fn control_follows_the_edges<N, R>(
    graph: GraphView<N, R>,
    current: Set<Name>,
    routes: Map<Name, Seq<Name>>,
)
    ensures
        forall|target: Name| #[trigger]
            graph.successors(current, routes).contains(target) <==> exists|from: Name|
                {
                    &&& #[trigger] current.contains(from)
                    &&& {
                        ||| graph.edges.dom().contains(from) && graph.edges[from].contains(target)
                        ||| graph.routers.dom().contains(from) && exists|i: int|
                            0 <= i < routes[from].len() && #[trigger] routes[from][i] == target
                    }
                },
{
    assert forall|target: Name| #[trigger]
        graph.successors(current, routes).contains(target) <==> exists|from: Name|
            {
                &&& #[trigger] current.contains(from)
                &&& {
                    ||| graph.edges.dom().contains(from) && graph.edges[from].contains(target)
                    ||| graph.routers.dom().contains(from) && exists|i: int|
                        0 <= i < routes[from].len() && #[trigger] routes[from][i] == target
                }
            } by {
        if graph.successors(current, routes).contains(target) {
            let from = choose|from: Name| #[trigger]
                current.contains(from) && graph.leads_to(from, routes, target);
            assert(current.contains(from));
            if !graph.static_edge(from, target) {
                let i = routes[from].index_of(target);
                assert(routes[from][i] == target);
            }
        }
        if exists|from: Name|
            {
                &&& #[trigger] current.contains(from)
                &&& {
                    ||| graph.edges.dom().contains(from) && graph.edges[from].contains(target)
                    ||| graph.routers.dom().contains(from) && exists|i: int|
                        0 <= i < routes[from].len() && #[trigger] routes[from][i] == target
                }
            } {
            let from = choose|from: Name|
                {
                    &&& #[trigger] current.contains(from)
                    &&& {
                        ||| graph.edges.dom().contains(from) && graph.edges[from].contains(target)
                        ||| graph.routers.dom().contains(from) && exists|i: int|
                            0 <= i < routes[from].len() && #[trigger] routes[from][i] == target
                    }
                };
            assert(graph.leads_to(from, routes, target));
        }
    }
}

/// A step that ends makes the names that it leads to the current ones, and notes
/// what led there: a name with a node, else a name with edges, else neither.
pub proof fn a_step_ends<N, R>(graph: GraphView<N, R>, at: Position, next: Set<Name>)
    ensures
        graph.moved(at, next).current == next,
        graph.moved(at, next).step == at.step,
        graph.moved(at, next).reached_end == at.reached_end,
        graph.moved(at, next).origin == Origin::Nodes <==> exists|name: Name| #[trigger]
            at.current.contains(name) && graph.nodes.dom().contains(name),
        graph.moved(at, next).origin == Origin::Markers <==> {
            &&& forall|name: Name| #[trigger]
                at.current.contains(name) ==> !graph.nodes.dom().contains(name)
            &&& exists|name: Name| #[trigger]
                at.current.contains(name) && (graph.edges.dom().contains(name)
                    || graph.routers.dom().contains(name))
        },
        graph.moved(at, next).origin == Origin::Strays <==> forall|name: Name| #[trigger]
            at.current.contains(name) ==> {
                &&& !graph.nodes.dom().contains(name)
                &&& !graph.edges.dom().contains(name)
                &&& !graph.routers.dom().contains(name)
            },
{
    assert(forall|name: Name|
        graph.registered(name) <==> #[trigger] graph.nodes.dom().contains(name));
}

/// A batch run stops if and only if its budget is used up, no current name other
/// than the end is left, or markers led only to names that are unknown. That the
/// end was reached before does not stop it.
pub proof fn a_batch_stops_at<N, R>(graph: GraphView<N, R>, at: Position)
    ensures
        graph.batch_stops(at) <==> {
            ||| at.step >= graph.max_steps
            ||| forall|name: Name| #[trigger] at.current.contains(name) ==> name == graph.end
            ||| {
                &&& at.origin == Origin::Markers
                &&& !at.reached_end
                &&& forall|name: Name| #[trigger]
                    at.current.contains(name) ==> {
                        &&& name != graph.end
                        &&& !graph.nodes.dom().contains(name)
                        &&& !graph.edges.dom().contains(name)
                        &&& !graph.routers.dom().contains(name)
                    }
            }
        },
{
    lemma_drained(graph, at);
    let entered = graph.entered(at);
    assert forall|name: Name| #[trigger]
        at.current.contains(name) && name != graph.end implies entered.current.contains(name) by {}
    if graph.lost(at) {
        assert forall|name: Name| #[trigger] at.current.contains(name) implies {
            &&& name != graph.end
            &&& !graph.nodes.dom().contains(name)
            &&& !graph.edges.dom().contains(name)
            &&& !graph.routers.dom().contains(name)
        } by {
            assert(!at.current.contains(graph.end));
            assert(entered.current.contains(name));
        }
    }
    if !graph.batch_stops(at) {
        let name = choose|name: Name| #[trigger]
            at.current.contains(name) && name != graph.end;
        if at.origin == Origin::Markers && !at.reached_end && !at.current.contains(graph.end) {
            let known = choose|known: Name| #[trigger]
                entered.current.contains(known) && graph.known(known);
            assert(at.current.contains(known));
        }
    }
}

/// Nothing is left to do if and only if no current name is other than the end.
proof fn lemma_drained<N, R>(graph: GraphView<N, R>, at: Position)
    ensures
        graph.drained(at) <==> forall|name: Name| #[trigger]
            at.current.contains(name) ==> name == graph.end,
{
    let left = graph.entered(at).current;
    if graph.drained(at) {
        assert forall|name: Name| #[trigger] at.current.contains(name) implies name
            == graph.end by {
            assert(!left.contains(name));
        }
    }
    if forall|name: Name| #[trigger] at.current.contains(name) ==> name == graph.end {
        assert(left =~= Set::<Name>::empty());
    }
}

/// The result of a batch run that stops. It is well if the budget is used up. If
/// nothing is left to do, it is well unless a node or a marker led nowhere and
/// the end was never reached, which is a dead end. Where unknown names are left,
/// the error is about them, and names the one that is alone.
pub proof fn a_batch_ends_with<N, R>(graph: GraphView<N, R>, at: Position)
    requires
        graph.batch_stops(at),
    ensures
        at.step >= graph.max_steps ==> graph.batch_end(at) is Ok,
        at.step < graph.max_steps && (forall|name: Name| #[trigger]
            at.current.contains(name) ==> name == graph.end) ==> {
            if at.reached_end || at.current.contains(graph.end) || at.origin == Origin::Start
                || at.origin == Origin::Strays {
                graph.batch_end(at) is Ok
            } else {
                graph.batch_end(at) == Err::<(), ErrorView>(
                    ErrorView::GraphError(
                        "Dead-end: no outgoing edge leads on and the end node was not reached"@,
                    ),
                )
            }
        },
        at.step < graph.max_steps && (exists|name: Name| #[trigger]
            at.current.contains(name) && name != graph.end) ==> {
            &&& forall|name: Name|
                #![trigger at.current.contains(name)]
                at.current == set![name] ==> graph.batch_end(at) == Err::<(), ErrorView>(
                    ErrorView::NotFound("Node '"@ + name + "' not found in graph"@),
                )
            &&& (exists|one: Name, other: Name|
                one != other && #[trigger] at.current.contains(one)
                    && #[trigger] at.current.contains(other)) ==> graph.batch_end(at) == Err::<
                (),
                ErrorView,
            >(ErrorView::NotFound("Target nodes not found in graph"@))
        },
{
    lemma_drained(graph, at);
    a_batch_stops_at(graph, at);
    if at.step < graph.max_steps && exists|name: Name| #[trigger]
        at.current.contains(name) && name != graph.end {
        let left = graph.entered(at).current;
        assert(left =~= at.current);
        assert forall|name: Name|
            at.current == set![name] implies #[trigger] at.current.contains(name)
            && graph.batch_end(at) == Err::<(), ErrorView>(
            ErrorView::NotFound("Node '"@ + name + "' not found in graph"@),
        ) by {
            assert(set![name].contains(name));
            assert(left.contains(left.choose()));
            assert(left.choose() == name);
        }
        if exists|one: Name, other: Name|
            one != other && #[trigger] at.current.contains(one)
                && #[trigger] at.current.contains(other) {
            assert(left != set![left.choose()]);
        }
    }
}

/// A streamed run stops if and only if its budget is used up or no current name
/// other than the end is left.
pub proof fn a_stream_stops_at<N, R>(graph: GraphView<N, R>, at: Position)
    ensures
        graph.stream_stops(at) <==> {
            ||| at.step >= graph.max_steps
            ||| forall|name: Name| #[trigger] at.current.contains(name) ==> name == graph.end
        },
{
    lemma_drained(graph, at);
}

/// The event that ends a streamed run. If the budget is used up, no further step
/// is counted, and the end counts as reached only if an earlier step was. Else
/// one more step is counted, and the end may be among its names. Without the end
/// the run fails.
pub proof fn a_stream_ends_with<N, R>(graph: GraphView<N, R>, at: Position)
    requires
        graph.stream_stops(at),
    ensures
        ({
            let event = graph.end_event(graph.stream_rest(at));
            let steps = if at.step >= graph.max_steps {
                at.step
            } else {
                at.step + 1
            };
            if at.reached_end || at.step < graph.max_steps && at.current.contains(graph.end) {
                event == EventView::WorkflowFinished { total_steps: steps }
            } else {
                event == (EventView::WorkflowError {
                    step: steps,
                    error: ErrorView::GraphError(
                        "Reached max_steps ("@ + decimal(graph.max_steps)
                            + ") without hitting the end node; the graph likely contains a cycle"@,
                    ),
                })
            }
        }),
{
}

/// The events of a step: if nodes run in it, its announcement with all of their
/// names, then theirs; and last the error of a step that fails, or where control
/// goes: from all current names but the end to the targets of their edges, which
/// are the names that are current next.
pub proof fn a_step_is_told<N, R>(graph: GraphView<N, R>, at: Position, record: StepRecord)
    ensures
        ({
            let log = graph.step_log(at, record);
            let step = at.step + 1;
            let from_nodes = at.current.remove(graph.end);
            let runs = exists|name: Name| #[trigger]
                at.current.contains(name) && name != graph.end && graph.nodes.dom().contains(name);
            &&& runs ==> {
                &&& log.len() == record.node_events.len() + 2
                &&& log[0] == (EventView::StepStarted {
                    step,
                    nodes: from_nodes.intersect(graph.nodes.dom()),
                })
                &&& forall|i: int|
                    0 <= i < record.node_events.len() ==> log[i + 1]
                        == #[trigger] record.node_events[i]
            }
            &&& !runs ==> log.len() == 1
            &&& match record.outcome {
                Err(error) => log.last() == (EventView::WorkflowError { step, error }),
                Ok(_) => {
                    &&& log.last() == (EventView::RoutingDecision {
                        step,
                        from_nodes,
                        to_nodes: graph.stepped(at, record).current,
                    })
                    &&& forall|target: Name| #[trigger]
                        graph.stepped(at, record).current.contains(target) <==> exists|
                            from: Name,
                        |
                            {
                                &&& #[trigger] at.current.contains(from)
                                &&& from != graph.end
                                &&& {
                                    ||| graph.edges.dom().contains(from)
                                        && graph.edges[from].contains(target)
                                    ||| graph.routers.dom().contains(from)
                                        && record.routes[from].contains(target)
                                }
                            }
                },
            }
        }),
{
    lemma_next_names(graph, at, record);
    let current = graph.entered(at).current;
    let nodes = graph.runnable(current);
    if exists|name: Name| #[trigger]
        at.current.contains(name) && name != graph.end && graph.nodes.dom().contains(name) {
        let name = choose|name: Name| #[trigger]
            at.current.contains(name) && name != graph.end && graph.nodes.dom().contains(name);
        assert(nodes.contains(name));
    } else {
        assert(nodes =~= Set::<Name>::empty());
    }
}

/// The names that are current after a step.
proof fn lemma_next_names<N, R>(graph: GraphView<N, R>, at: Position, record: StepRecord)
    ensures
        forall|target: Name| #[trigger]
            graph.stepped(at, record).current.contains(target) <==> exists|from: Name|
                {
                    &&& #[trigger] at.current.contains(from)
                    &&& from != graph.end
                    &&& {
                        ||| graph.edges.dom().contains(from) && graph.edges[from].contains(target)
                        ||| graph.routers.dom().contains(from) && record.routes[from].contains(
                            target,
                        )
                    }
                },
{
    let entered = graph.entered(at);
    assert forall|target: Name| #[trigger]
        graph.stepped(at, record).current.contains(target) <==> exists|from: Name|
            {
                &&& #[trigger] at.current.contains(from)
                &&& from != graph.end
                &&& {
                    ||| graph.edges.dom().contains(from) && graph.edges[from].contains(target)
                    ||| graph.routers.dom().contains(from) && record.routes[from].contains(target)
                }
            } by {
        if graph.stepped(at, record).current.contains(target) {
            let from = choose|from: Name| #[trigger]
                entered.current.contains(from) && graph.leads_to(from, record.routes, target);
            assert(at.current.contains(from));
        }
        if exists|from: Name|
            {
                &&& #[trigger] at.current.contains(from)
                &&& from != graph.end
                &&& {
                    ||| graph.edges.dom().contains(from) && graph.edges[from].contains(target)
                    ||| graph.routers.dom().contains(from) && record.routes[from].contains(target)
                }
            } {
            let from = choose|from: Name|
                {
                    &&& #[trigger] at.current.contains(from)
                    &&& from != graph.end
                    &&& {
                        ||| graph.edges.dom().contains(from) && graph.edges[from].contains(target)
                        ||| graph.routers.dom().contains(from) && record.routes[from].contains(
                            target,
                        )
                    }
                };
            assert(entered.current.contains(from));
            assert(graph.leads_to(from, record.routes, target));
        }
    }
}

/// Where a run is, once it took as many steps as are given. `current` holds the
/// names that are current before each step: first the start names, then, step by
/// step, the fixed targets of those before other than the end, and what their
/// routers returned.
///
/// All of these steps were counted, the end was reached if it was among the names
/// of one of them, and what led to the current names goes by the names of the
/// last of them: one with a node, else one with edges, else neither.
pub proof fn a_run_is_where_its_steps_led<N, R>(
    graph: GraphView<N, R>,
    records: Seq<StepRecord>,
    current: Seq<Set<Name>>,
    k: int,
)
    requires
        current.len() == records.len() + 1,
        current[0] == graph.start,
        forall|k: int, name: Name|
            0 < k < current.len() ==> (#[trigger] current[k].contains(name) <==> exists|from: Name|
                {
                    &&& #[trigger] current[k - 1].contains(from)
                    &&& from != graph.end
                    &&& {
                        ||| graph.edges.dom().contains(from) && graph.edges[from].contains(name)
                        ||| graph.routers.dom().contains(from) && records[k
                            - 1].routes[from].contains(name)
                    }
                }),
        0 <= k <= records.len(),
    ensures
        graph.position(records.take(k)).current == current[k],
        graph.position(records.take(k)).step == k,
        graph.position(records.take(k)).reached_end <==> exists|j: int|
            0 <= j < k && (#[trigger] current[j]).contains(graph.end),
        k == 0 <==> graph.position(records.take(k)).origin == Origin::Start,
        graph.position(records.take(k)).origin == Origin::Nodes <==> k > 0 && exists|name: Name|
            {
                &&& #[trigger] current[k - 1].contains(name)
                &&& name != graph.end
                &&& graph.nodes.dom().contains(name)
            },
        graph.position(records.take(k)).origin == Origin::Markers <==> {
            &&& k > 0
            &&& forall|name: Name| #[trigger]
                current[k - 1].contains(name) && name != graph.end ==> !graph.nodes.dom().contains(
                    name,
                )
            &&& exists|name: Name|
                {
                    &&& #[trigger] current[k - 1].contains(name)
                    &&& name != graph.end
                    &&& graph.edges.dom().contains(name) || graph.routers.dom().contains(name)
                }
        },
    decreases k,
{
    if k == 0 {
        assert(records.take(0) =~= Seq::<StepRecord>::empty());
    } else {
        a_run_is_where_its_steps_led(graph, records, current, k - 1);
        let before = records.take(k - 1);
        let at = graph.position(before);
        let record = records[k - 1];
        assert(records.take(k).drop_last() =~= before);
        assert(records.take(k).last() == record);
        assert(graph.position(records.take(k)) == graph.stepped(at, record));
        lemma_next_names(graph, at, record);
        assert(at.current == current[k - 1]);
        assert forall|name: Name| #[trigger]
            graph.stepped(at, record).current.contains(name) <==> current[k].contains(name) by {
            if graph.stepped(at, record).current.contains(name) {
                let from = choose|from: Name|
                    {
                        &&& #[trigger] at.current.contains(from)
                        &&& from != graph.end
                        &&& {
                            ||| graph.edges.dom().contains(from) && graph.edges[from].contains(
                                name,
                            )
                            ||| graph.routers.dom().contains(from) && record.routes[from].contains(
                                name,
                            )
                        }
                    };
                assert(current[k - 1].contains(from));
            }
            if current[k].contains(name) {
                let from = choose|from: Name|
                    {
                        &&& #[trigger] current[k - 1].contains(from)
                        &&& from != graph.end
                        &&& {
                            ||| graph.edges.dom().contains(from) && graph.edges[from].contains(
                                name,
                            )
                            ||| graph.routers.dom().contains(from) && records[k
                                - 1].routes[from].contains(name)
                        }
                    };
                assert(at.current.contains(from));
            }
        }
        assert(graph.stepped(at, record).current =~= current[k]);
        let entered = graph.entered(at);
        assert forall|name: Name| #[trigger] entered.current.contains(name) <==> current[k
            - 1].contains(name) && name != graph.end by {}
        if graph.position(records.take(k)).reached_end {
            if at.current.contains(graph.end) {
                assert(current[k - 1].contains(graph.end));
            }
        }
        if exists|j: int| 0 <= j < k && (#[trigger] current[j]).contains(graph.end) {
            let j = choose|j: int| 0 <= j < k && (#[trigger] current[j]).contains(graph.end);
            if j < k - 1 {
                assert(current[j].contains(graph.end));
            }
        }
        lemma_departure(graph, entered.current, current[k - 1]);
    }
}

/// What a step notes of the names that it worked on.
proof fn lemma_departure<N, R>(graph: GraphView<N, R>, names: Set<Name>, current: Set<Name>)
    requires
        forall|name: Name| #[trigger]
            names.contains(name) <==> current.contains(name) && name != graph.end,
    ensures
        graph.departure(names) != Origin::Start,
        graph.departure(names) == Origin::Nodes <==> exists|name: Name|
            {
                &&& #[trigger] current.contains(name)
                &&& name != graph.end
                &&& graph.nodes.dom().contains(name)
            },
        graph.departure(names) == Origin::Markers <==> {
            &&& forall|name: Name| #[trigger]
                current.contains(name) && name != graph.end ==> !graph.nodes.dom().contains(name)
            &&& exists|name: Name|
                {
                    &&& #[trigger] current.contains(name)
                    &&& name != graph.end
                    &&& graph.edges.dom().contains(name) || graph.routers.dom().contains(name)
                }
        },
{
    assert forall|name: Name| #[trigger]
        current.contains(name) && name != graph.end implies names.contains(name) by {}
    assert forall|name: Name| #[trigger] names.contains(name) implies current.contains(name) by {}
}

/// A batch run that no node failed stops only when its budget is used up, when no
/// current name other than the end is left, or when markers led only to unknown
/// names before the end was reached; and then it does stop. So where control comes
/// to a name other than the end that the graph knows, and budget is left, the run
/// takes the next step, whether or not it reached the end before.
///
/// `current` holds the names that are current before each step, as the edges of
/// the names before and what their routers returned make them.
pub proof fn a_batch_goes_on_while_it_can<N, R>(
    graph: GraphView<N, R>,
    records: Seq<StepRecord>,
    result: Result<(), ErrorView>,
    current: Seq<Set<Name>>,
)
    requires
        graph.batch_run(records, result),
        current.len() == records.len() + 1,
        current[0] == graph.start,
        forall|k: int, name: Name|
            0 < k < current.len() ==> (#[trigger] current[k].contains(name) <==> exists|from: Name|
                {
                    &&& #[trigger] current[k - 1].contains(from)
                    &&& from != graph.end
                    &&& {
                        ||| graph.edges.dom().contains(from) && graph.edges[from].contains(name)
                        ||| graph.routers.dom().contains(from) && records[k
                            - 1].routes[from].contains(name)
                    }
                }),
    ensures
        records.len() <= graph.max_steps,
        forall|k: int| 0 <= k < records.len() - 1 ==> (#[trigger] records[k]).outcome is Ok,
        forall|k: int, name: Name|
            #![trigger current[k].contains(name)]
            {
                &&& 0 <= k <= records.len()
                &&& k < graph.max_steps
                &&& k == records.len() && k > 0 ==> records[k - 1].outcome is Ok
                &&& current[k].contains(name)
                &&& name != graph.end
                &&& {
                    ||| graph.nodes.dom().contains(name)
                    ||| graph.edges.dom().contains(name)
                    ||| graph.routers.dom().contains(name)
                }
            } ==> k < records.len(),
{
    let len = records.len() as int;
    runs_keep_the_budget(graph, records, result);
    assert forall|k: int| 0 <= k < len - 1 implies (#[trigger] records[k]).outcome is Ok by {
        an_error_is_the_end(graph, records, result, k);
    }
    assert(records.take(len) =~= records);
    assert forall|k: int, name: Name|
        #![trigger current[k].contains(name)]
        {
            &&& 0 <= k <= records.len()
            &&& k < graph.max_steps
            &&& k == records.len() && k > 0 ==> records[k - 1].outcome is Ok
            &&& current[k].contains(name)
            &&& name != graph.end
            &&& {
                ||| graph.nodes.dom().contains(name)
                ||| graph.edges.dom().contains(name)
                ||| graph.routers.dom().contains(name)
            }
        } implies k < records.len() by {
        if k == len {
            let at = graph.position(records);
            a_run_is_where_its_steps_led(graph, records, current, k);
            a_batch_stops_at(graph, at);
            assert(at.current.contains(name));
            assert(graph.batch_stops(at));
        }
    }
}

/// A batch run takes a step only on a name other than the end. Where a step on
/// markers alone led to the names of the next step, and the end was in none so
/// far, it takes that step only if it knows one of them.
pub proof fn a_batch_takes_no_idle_step<N, R>(
    graph: GraphView<N, R>,
    records: Seq<StepRecord>,
    result: Result<(), ErrorView>,
    current: Seq<Set<Name>>,
    k: int,
)
    requires
        graph.batch_run(records, result),
        current.len() == records.len() + 1,
        current[0] == graph.start,
        forall|k: int, name: Name|
            0 < k < current.len() ==> (#[trigger] current[k].contains(name) <==> exists|from: Name|
                {
                    &&& #[trigger] current[k - 1].contains(from)
                    &&& from != graph.end
                    &&& {
                        ||| graph.edges.dom().contains(from) && graph.edges[from].contains(name)
                        ||| graph.routers.dom().contains(from) && records[k
                            - 1].routes[from].contains(name)
                    }
                }),
        0 <= k < records.len(),
    ensures
        exists|name: Name| #[trigger] current[k].contains(name) && name != graph.end,
        ({
            &&& k > 0
            &&& forall|j: int| 0 <= j <= k ==> !(#[trigger] current[j]).contains(graph.end)
            &&& forall|name: Name| #[trigger]
                current[k - 1].contains(name) ==> !graph.nodes.dom().contains(name)
            &&& exists|name: Name| #[trigger]
                current[k - 1].contains(name) && (graph.edges.dom().contains(name)
                    || graph.routers.dom().contains(name))
        }) ==> exists|name: Name| #[trigger]
            current[k].contains(name) && {
                ||| graph.nodes.dom().contains(name)
                ||| graph.edges.dom().contains(name)
                ||| graph.routers.dom().contains(name)
            },
{
    let at = graph.position(records.take(k));
    a_run_is_where_its_steps_led(graph, records, current, k);
    a_batch_stops_at(graph, at);
    lemma_batch_took(graph, records, result, k);
    if {
        &&& k > 0
        &&& forall|j: int| 0 <= j <= k ==> !(#[trigger] current[j]).contains(graph.end)
        &&& forall|name: Name| #[trigger]
            current[k - 1].contains(name) ==> !graph.nodes.dom().contains(name)
        &&& exists|name: Name| #[trigger]
            current[k - 1].contains(name) && (graph.edges.dom().contains(name)
                || graph.routers.dom().contains(name))
    } {
        let marker = choose|name: Name| #[trigger]
            current[k - 1].contains(name) && (graph.edges.dom().contains(name)
                || graph.routers.dom().contains(name));
        assert(!current[k - 1].contains(graph.end));
        assert(current[k - 1].contains(marker) && marker != graph.end);
        assert(at.origin == Origin::Markers);
        assert(!at.reached_end);
        assert(!current[k].contains(graph.end));
    }
}

/// A batch run that took a step did not stop before it.
proof fn lemma_batch_took<N, R>(
    graph: GraphView<N, R>,
    records: Seq<StepRecord>,
    result: Result<(), ErrorView>,
    k: int,
)
    requires
        graph.batch_run(records, result),
        0 <= k < records.len(),
    ensures
        !graph.batch_stops(graph.position(records.take(k))),
{
    if failed(records) {
        let before = records.drop_last();
        if k < before.len() {
            assert(before.take(k) =~= records.take(k));
            lemma_going_on(graph, before, k);
        } else {
            assert(records.take(k) =~= before);
        }
    } else {
        lemma_going_on(graph, records, k);
    }
}

/// How a batch run comes out. If its last step failed, with the error of that
/// step. If its budget is used up, well. If no current name other than the end is
/// left, well too, unless the end was never among the names of a step while the
/// last step had a name with a node or with edges: that is a dead end. Else, only
/// unknown names are left that markers led to, and the error is about them.
pub proof fn a_batch_comes_out<N, R>(
    graph: GraphView<N, R>,
    records: Seq<StepRecord>,
    result: Result<(), ErrorView>,
    current: Seq<Set<Name>>,
)
    requires
        graph.batch_run(records, result),
        current.len() == records.len() + 1,
        current[0] == graph.start,
        forall|k: int, name: Name|
            0 < k < current.len() ==> (#[trigger] current[k].contains(name) <==> exists|from: Name|
                {
                    &&& #[trigger] current[k - 1].contains(from)
                    &&& from != graph.end
                    &&& {
                        ||| graph.edges.dom().contains(from) && graph.edges[from].contains(name)
                        ||| graph.routers.dom().contains(from) && records[k
                            - 1].routes[from].contains(name)
                    }
                }),
    ensures
        ({
            let len = records.len() as int;
            let left = current[len];
            let reached = exists|j: int|
                0 <= j <= len && (#[trigger] current[j]).contains(graph.end);
            let worked = len > 0 && exists|name: Name| #[trigger]
                current[len - 1].contains(name) && name != graph.end && {
                    ||| graph.nodes.dom().contains(name)
                    ||| graph.edges.dom().contains(name)
                    ||| graph.routers.dom().contains(name)
                };
            if len > 0 && records[len - 1].outcome is Err {
                result == records[len - 1].outcome
            } else if len == graph.max_steps {
                result is Ok
            } else if forall|name: Name| #[trigger] left.contains(name) ==> name == graph.end {
                if reached || !worked {
                    result is Ok
                } else {
                    result == Err::<(), ErrorView>(
                        ErrorView::GraphError(
                            "Dead-end: no outgoing edge leads on and the end node was not reached"@,
                        ),
                    )
                }
            } else {
                &&& worked && !reached
                &&& forall|name: Name| #[trigger]
                    current[len - 1].contains(name) ==> !graph.nodes.dom().contains(name)
                &&& forall|name: Name| #[trigger]
                    left.contains(name) ==> {
                        &&& !graph.nodes.dom().contains(name)
                        &&& !graph.edges.dom().contains(name)
                        &&& !graph.routers.dom().contains(name)
                    }
                &&& forall|name: Name|
                    #![trigger left.contains(name)]
                    left == set![name] ==> result == Err::<(), ErrorView>(
                        ErrorView::NotFound("Node '"@ + name + "' not found in graph"@),
                    )
                &&& (exists|one: Name, other: Name|
                    one != other && #[trigger] left.contains(one) && #[trigger] left.contains(
                        other,
                    )) ==> result == Err::<(), ErrorView>(
                    ErrorView::NotFound("Target nodes not found in graph"@),
                )
            }
        }),
{
    let len = records.len() as int;
    let left = current[len];
    runs_keep_the_budget(graph, records, result);
    assert(records.take(len) =~= records);
    let at = graph.position(records);
    a_run_is_where_its_steps_led(graph, records, current, len);
    let reached = exists|j: int| 0 <= j <= len && (#[trigger] current[j]).contains(graph.end);
    assert(reached <==> at.reached_end || at.current.contains(graph.end)) by {
        if reached {
            let j = choose|j: int| 0 <= j <= len && (#[trigger] current[j]).contains(graph.end);
            if j < len {
                assert(current[j].contains(graph.end));
            }
        }
    }
    let worked = len > 0 && exists|name: Name| #[trigger]
        current[len - 1].contains(name) && name != graph.end && {
            ||| graph.nodes.dom().contains(name)
            ||| graph.edges.dom().contains(name)
            ||| graph.routers.dom().contains(name)
        };
    assert(worked <==> at.origin == Origin::Nodes || at.origin == Origin::Markers);
    if !failed(records) {
        assert(graph.batch_stops(at));
        a_batch_stops_at(graph, at);
        a_batch_ends_with(graph, at);
        if len < graph.max_steps && exists|name: Name| #[trigger]
            left.contains(name) && name != graph.end {
            assert(at.origin == Origin::Markers);
            assert(!reached);
            assert(!current[len - 1].contains(graph.end));
        }
    }
}

/// In each step of a run a node is run if and only if its name is current and not
/// the end, and then once. The step comes out well if all of them do, and else
/// with the error of the first that fails.
pub proof fn a_step_runs_each_of_its_nodes_once<S, N: Runs<S, R>, R: Routes<S, N>>(
    graph: GraphView<N, R>,
    state: Arc<S>,
    records: Seq<StepRecord>,
    current: Seq<Set<Name>>,
    k: int,
)
    requires
        steps_made(graph, state, records),
        current.len() == records.len() + 1,
        current[0] == graph.start,
        forall|k: int, name: Name|
            0 < k < current.len() ==> (#[trigger] current[k].contains(name) <==> exists|from: Name|
                {
                    &&& #[trigger] current[k - 1].contains(from)
                    &&& from != graph.end
                    &&& {
                        ||| graph.edges.dom().contains(from) && graph.edges[from].contains(name)
                        ||| graph.routers.dom().contains(from) && records[k
                            - 1].routes[from].contains(name)
                    }
                }),
        0 <= k < records.len(),
    ensures
        ({
            let applied = records[k].applied;
            &&& forall|name: Name| #[trigger]
                current[k].contains(name) && name != graph.end && graph.nodes.dom().contains(name)
                    ==> exists|i: int| 0 <= i < applied.len() && (#[trigger] applied[i]).0 == name
            &&& forall|i: int|
                0 <= i < applied.len() ==> {
                    &&& current[k].contains((#[trigger] applied[i]).0)
                    &&& applied[i].0 != graph.end
                    &&& graph.nodes.dom().contains(applied[i].0)
                }
            &&& forall|i: int, j: int|
                0 <= i < j < applied.len() ==> (#[trigger] applied[i]).0 != (
                #[trigger] applied[j]).0
            &&& records[k].outcome is Ok <==> forall|i: int|
                0 <= i < applied.len() ==> (#[trigger] applied[i]).1 is Ok
            &&& records[k].outcome is Err ==> exists|i: int|
                {
                    &&& 0 <= i < applied.len()
                    &&& (#[trigger] applied[i]).1 == records[k].outcome
                    &&& forall|j: int| 0 <= j < i ==> (#[trigger] applied[j]).1 is Ok
                }
        }),
{
    a_run_is_where_its_steps_led(graph, records, current, k);
    lemma_step_nodes(graph, state, records, current[k], k);
}

/// The nodes that a step runs, given the names that are current.
proof fn lemma_step_nodes<S, N: Runs<S, R>, R: Routes<S, N>>(
    graph: GraphView<N, R>,
    state: Arc<S>,
    records: Seq<StepRecord>,
    now: Set<Name>,
    k: int,
)
    requires
        steps_made(graph, state, records),
        now == graph.position(records.take(k)).current,
        0 <= k < records.len(),
    ensures
        ({
            let applied = records[k].applied;
            &&& forall|name: Name| #[trigger]
                now.contains(name) && name != graph.end && graph.nodes.dom().contains(name)
                    ==> exists|i: int| 0 <= i < applied.len() && (#[trigger] applied[i]).0 == name
            &&& forall|i: int|
                0 <= i < applied.len() ==> {
                    &&& now.contains((#[trigger] applied[i]).0)
                    &&& applied[i].0 != graph.end
                    &&& graph.nodes.dom().contains(applied[i].0)
                }
            &&& forall|i: int, j: int|
                0 <= i < j < applied.len() ==> (#[trigger] applied[i]).0 != (
                #[trigger] applied[j]).0
            &&& records[k].outcome is Ok <==> forall|i: int|
                0 <= i < applied.len() ==> (#[trigger] applied[i]).1 is Ok
            &&& records[k].outcome is Err ==> exists|i: int|
                {
                    &&& 0 <= i < applied.len()
                    &&& (#[trigger] applied[i]).1 == records[k].outcome
                    &&& forall|j: int| 0 <= j < i ==> (#[trigger] applied[j]).1 is Ok
                }
        }),
{
    let applied = records[k].applied;
    let names = applied_names(applied);
    let nodes = graph.runnable(graph.entered(graph.position(records.take(k))).current);
    lemma_step_made(graph, state, records, k);
    assert forall|name: Name| #[trigger]
        now.contains(name) && name != graph.end && graph.nodes.dom().contains(
            name,
        ) implies exists|i: int| 0 <= i < applied.len() && (#[trigger] applied[i]).0 == name by {
        assert(nodes.contains(name));
        assert(names.to_set().contains(name));
        let i = names.index_of(name);
        assert(applied[i].0 == name);
    }
    assert forall|i: int| 0 <= i < applied.len() implies {
        &&& now.contains((#[trigger] applied[i]).0)
        &&& applied[i].0 != graph.end
        &&& graph.nodes.dom().contains(applied[i].0)
    } by {
        assert(names.contains(names[i]));
        assert(names.to_set().contains(names[i]));
        assert(nodes.contains(applied[i].0));
    }
    assert forall|i: int, j: int| 0 <= i < j < applied.len() implies (#[trigger] applied[i]).0 != (
    #[trigger] applied[j]).0 by {
        assert(names[i] != names[j]);
    }
    if records[k].outcome is Err {
        let i = choose|i: int|
            {
                &&& 0 <= i < applied.len()
                &&& (#[trigger] applied[i]).1 == records[k].outcome
                &&& forall|j: int| 0 <= j < i ==> (#[trigger] applied[j]).1 is Ok
            };
        assert(applied[i].1 is Err);
    }
}

/// What a run made of one of its steps.
proof fn lemma_step_made<S, N: Runs<S, R>, R: Routes<S, N>>(
    graph: GraphView<N, R>,
    state: Arc<S>,
    records: Seq<StepRecord>,
    k: int,
)
    requires
        steps_made(graph, state, records),
        0 <= k < records.len(),
    ensures
        step_made(
            graph,
            state,
            history(graph, records.take(k)),
            graph.position(records.take(k)),
            records[k],
        ),
    decreases records.len(),
{
    let before = records.drop_last();
    assert(before.take(k) =~= records.take(k));
    if k < before.len() {
        lemma_step_made(graph, state, before, k);
    } else {
        assert(records.take(k) =~= before);
    }
}

/// Where a batch run comes to a registered name other than the end, no step
/// before failed and budget is left, the next step runs the node of that name,
/// whether or not the end was reached before.
pub proof fn a_batch_runs_the_nodes_it_comes_to<S, N: Runs<S, R>, R: Routes<S, N>>(
    graph: GraphView<N, R>,
    state: Arc<S>,
    records: Seq<StepRecord>,
    result: Result<(), ErrorView>,
    current: Seq<Set<Name>>,
    k: int,
    name: Name,
)
    requires
        graph.batch_run(records, result),
        steps_made(graph, state, records),
        current.len() == records.len() + 1,
        current[0] == graph.start,
        forall|k: int, name: Name|
            0 < k < current.len() ==> (#[trigger] current[k].contains(name) <==> exists|from: Name|
                {
                    &&& #[trigger] current[k - 1].contains(from)
                    &&& from != graph.end
                    &&& {
                        ||| graph.edges.dom().contains(from) && graph.edges[from].contains(name)
                        ||| graph.routers.dom().contains(from) && records[k
                            - 1].routes[from].contains(name)
                    }
                }),
        0 <= k <= records.len(),
        k < graph.max_steps,
        k == records.len() && k > 0 ==> records[k - 1].outcome is Ok,
        current[k].contains(name),
        name != graph.end,
        graph.nodes.dom().contains(name),
    ensures
        k < records.len(),
        exists|i: int| 0 <= i < records[k].applied.len() && (#[trigger] records[k].applied[i]).0
            == name,
{
    a_batch_goes_on_while_it_can(graph, records, result, current);
    a_step_runs_each_of_its_nodes_once(graph, state, records, current, k);
}

/// The calls of a run up to a step, and those of the step.
proof fn lemma_history<N, R>(graph: GraphView<N, R>, records: Seq<StepRecord>, k: int)
    requires
        0 <= k < records.len(),
    ensures
        ({
            let before = history(graph, records.take(k));
            let ran = ran_entries(graph, records[k].applied);
            let asked = asked_entries(graph, records[k].asked);
            let all = history(graph, records);
            &&& before.len() + ran.len() + asked.len() <= all.len()
            &&& history(graph, records.take(k + 1)) == before + ran + asked
            &&& all.take(before.len() as int) == before
            &&& all.subrange(before.len() as int, (before.len() + ran.len()) as int) == ran
            &&& all.subrange(
                (before.len() + ran.len()) as int,
                (before.len() + ran.len() + asked.len()) as int,
            ) == asked
        }),
    decreases records.len(),
{
    let before = history(graph, records.take(k));
    let ran = ran_entries(graph, records[k].applied);
    let asked = asked_entries(graph, records[k].asked);
    let all = history(graph, records);
    let fewer = records.drop_last();
    let last = records.last();
    assert(records.take(k + 1).drop_last() =~= records.take(k));
    assert(fewer.take(k) =~= records.take(k));
    if k < fewer.len() {
        lemma_history(graph, fewer, k);
        let part = history(graph, fewer);
        assert(all == part + ran_entries(graph, last.applied) + asked_entries(graph, last.asked));
        assert(all.take(before.len() as int) =~= part.take(before.len() as int));
        assert(all.subrange(before.len() as int, (before.len() + ran.len()) as int)
            =~= part.subrange(before.len() as int, (before.len() + ran.len()) as int));
        assert(all.subrange(
            (before.len() + ran.len()) as int,
            (before.len() + ran.len() + asked.len()) as int,
        ) =~= part.subrange(
            (before.len() + ran.len()) as int,
            (before.len() + ran.len() + asked.len()) as int,
        ));
    } else {
        assert(fewer =~= records.take(k));
        assert(all =~= before + ran + asked);
    }
}

/// Where the calls of a step are among those of a run, and what was called before
/// each of them.
proof fn lemma_calls_of_step<N, R>(graph: GraphView<N, R>, records: Seq<StepRecord>, k: int)
    requires
        0 <= k < records.len(),
    ensures
        ({
            let calls = history(graph, records);
            let before = history(graph, records.take(k));
            let ran = ran_entries(graph, records[k].applied);
            let asked = asked_entries(graph, records[k].asked);
            let first = before.len() as int;
            let middle = first + records[k].applied.len();
            let next = middle + records[k].asked.len();
            &&& next <= calls.len()
            &&& next == history(graph, records.take(k + 1)).len()
            &&& forall|q: int| first <= q < middle ==> #[trigger] calls[q] == ran[q - first]
            &&& forall|q: int| middle <= q < next ==> #[trigger] calls[q] == asked[q - middle]
            &&& forall|q: int|
                first <= q < middle ==> #[trigger] calls.take(q) == before + ran_entries(
                    graph,
                    records[k].applied.take(q - first),
                )
            &&& forall|q: int|
                middle <= q < next ==> #[trigger] calls.take(q) == before + ran + asked_entries(
                    graph,
                    records[k].asked.take(q - middle),
                )
        }),
{
    let calls = history(graph, records);
    let before = history(graph, records.take(k));
    let applied = records[k].applied;
    let told = records[k].asked;
    let ran = ran_entries(graph, applied);
    let asked = asked_entries(graph, told);
    lemma_history(graph, records, k);
    let first = before.len() as int;
    let middle = first + ran.len();
    let next = middle + asked.len();
    assert forall|q: int| 0 <= q < first implies #[trigger] calls[q] == before[q] by {
        assert(calls.take(first)[q] == before[q]);
    }
    assert forall|q: int| first <= q < middle implies #[trigger] calls[q] == ran[q - first] by {
        assert(calls.subrange(first, middle)[q - first] == ran[q - first]);
    }
    assert forall|q: int| middle <= q < next implies #[trigger] calls[q] == asked[q - middle] by {
        assert(calls.subrange(middle, next)[q - middle] == asked[q - middle]);
    }
    assert forall|q: int| first <= q < middle implies #[trigger] calls.take(q) == before
        + ran_entries(graph, applied.take(q - first)) by {
        assert(calls.take(q) =~= before + ran_entries(graph, applied.take(q - first)));
    }
    assert forall|q: int| middle <= q < next implies #[trigger] calls.take(q) == before + ran
        + asked_entries(graph, told.take(q - middle)) by {
        assert(calls.take(q) =~= before + ran + asked_entries(graph, told.take(q - middle)));
    }
}

/// In each step, routers are asked once all nodes of the step were run, and
/// none is run after. `calls` holds all calls of a run in their order; those of
/// the step are at the positions from `first` to before `next`.
///
/// A router of a name of the step is asked once. What it returns is what it can
/// give after all calls before, and those are, besides all of the earlier steps,
/// a call to the node of every registered name of the step, and each of them came
/// out well.
pub proof fn routers_are_asked_after_the_nodes<S, N: Runs<S, R>, R: Routes<S, N>>(
    graph: GraphView<N, R>,
    state: Arc<S>,
    records: Seq<StepRecord>,
    current: Seq<Set<Name>>,
    k: int,
    name: Name,
    index: int,
)
    requires
        steps_made(graph, state, records),
        current.len() == records.len() + 1,
        current[0] == graph.start,
        forall|k: int, name: Name|
            0 < k < current.len() ==> (#[trigger] current[k].contains(name) <==> exists|from: Name|
                {
                    &&& #[trigger] current[k - 1].contains(from)
                    &&& from != graph.end
                    &&& {
                        ||| graph.edges.dom().contains(from) && graph.edges[from].contains(name)
                        ||| graph.routers.dom().contains(from) && records[k
                            - 1].routes[from].contains(name)
                    }
                }),
        0 <= k < records.len(),
        records[k].outcome is Ok,
        current[k].contains(name),
        name != graph.end,
        graph.routers.dom().contains(name),
        0 <= index < graph.routers[name].len(),
    ensures
        ({
            let calls = history(graph, records);
            let first = history(graph, records.take(k)).len() as int;
            let next = history(graph, records.take(k + 1)).len() as int;
            let router = graph.routers[name][index];
            let target = records[k].routes[name][index];
            &&& first <= next <= calls.len()
            &&& exists|p: int|
                {
                    &&& first <= p < next
                    &&& #[trigger] calls[p] == (Entry::<N, R>::Asked {
                        name,
                        index,
                        router,
                        target,
                    })
                    &&& router_gives(router, &*state, calls.take(p), target)
                    &&& forall|node: Name|
                        #![trigger current[k].contains(node)]
                        current[k].contains(node) && node != graph.end
                            && graph.nodes.dom().contains(node) ==> exists|q: int|
                            {
                                &&& first <= q < p
                                &&& #[trigger] calls[q] is Ran
                                &&& calls[q]->Ran_name == node
                                &&& calls[q]->Ran_node == graph.nodes[node]
                                &&& calls[q]->Ran_outcome is Ok
                            }
                    &&& forall|q: int| p < q < next ==> #[trigger] calls[q] is Asked
                    &&& forall|q: int|
                        first <= q < next && (#[trigger] calls[q]) is Asked
                            && calls[q]->Asked_name == name && calls[q]->index == index ==> q == p
                }
        }),
{
    a_run_is_where_its_steps_led(graph, records, current, k);
    lemma_router_calls(graph, state, records, current[k], k, name, index);
}

/// The calls to routers of a step, given the names that are current.
proof fn lemma_router_calls<S, N: Runs<S, R>, R: Routes<S, N>>(
    graph: GraphView<N, R>,
    state: Arc<S>,
    records: Seq<StepRecord>,
    now: Set<Name>,
    k: int,
    name: Name,
    index: int,
)
    requires
        steps_made(graph, state, records),
        now == graph.position(records.take(k)).current,
        0 <= k < records.len(),
        records[k].outcome is Ok,
        now.contains(name),
        name != graph.end,
        graph.routers.dom().contains(name),
        0 <= index < graph.routers[name].len(),
    ensures
        ({
            let calls = history(graph, records);
            let first = history(graph, records.take(k)).len() as int;
            let next = history(graph, records.take(k + 1)).len() as int;
            let router = graph.routers[name][index];
            let target = records[k].routes[name][index];
            &&& first <= next <= calls.len()
            &&& exists|p: int|
                {
                    &&& first <= p < next
                    &&& #[trigger] calls[p] == (Entry::<N, R>::Asked {
                        name,
                        index,
                        router,
                        target,
                    })
                    &&& router_gives(router, &*state, calls.take(p), target)
                    &&& forall|node: Name|
                        #![trigger now.contains(node)]
                        now.contains(node) && node != graph.end
                            && graph.nodes.dom().contains(node) ==> exists|q: int|
                            {
                                &&& first <= q < p
                                &&& #[trigger] calls[q] is Ran
                                &&& calls[q]->Ran_name == node
                                &&& calls[q]->Ran_node == graph.nodes[node]
                                &&& calls[q]->Ran_outcome is Ok
                            }
                    &&& forall|q: int| p < q < next ==> #[trigger] calls[q] is Asked
                    &&& forall|q: int|
                        first <= q < next && (#[trigger] calls[q]) is Asked
                            && calls[q]->Asked_name == name && calls[q]->index == index ==> q == p
                }
        }),
{
    let record = records[k];
    let calls = history(graph, records);
    let before = history(graph, records.take(k));
    let ran = ran_entries(graph, record.applied);
    let asked = asked_entries(graph, record.asked);
    let router = graph.routers[name][index];
    let target = record.routes[name][index];
    let at = graph.position(records.take(k));
    let first = before.len() as int;
    let middle = first + record.applied.len();
    let next = middle + record.asked.len();
    lemma_calls_of_step(graph, records, k);
    lemma_step_nodes(graph, state, records, now, k);
    let i = lemma_asked_at(graph, state, records, k, name, index);
    let p = middle + i;
    assert(calls[p] == asked[i]);
    assert(asked[i] == Entry::<N, R>::Asked { name, index, router, target });
    assert(calls.take(p) == before + ran + asked_entries(graph, record.asked.take(i)));
    assert forall|node: Name|
        #![trigger now.contains(node)]
        now.contains(node) && node != graph.end && graph.nodes.dom().contains(
            node,
        ) implies exists|q: int|
        {
            &&& first <= q < p
            &&& #[trigger] calls[q] is Ran
            &&& calls[q]->Ran_name == node
            &&& calls[q]->Ran_node == graph.nodes[node]
            &&& calls[q]->Ran_outcome is Ok
        } by {
        let j = choose|j: int|
            0 <= j < record.applied.len() && (#[trigger] record.applied[j]).0 == node;
        assert(calls[first + j] == ran[j]);
        assert(record.applied[j].1 is Ok);
    }
    assert forall|q: int| p < q < next implies #[trigger] calls[q] is Asked by {
        assert(calls[q] == asked[q - middle]);
    }
    assert forall|q: int|
        first <= q < next && (#[trigger] calls[q]) is Asked && calls[q]->Asked_name == name
            && calls[q]->index == index implies q == p by {
        if q < middle {
            assert(calls[q] == ran[q - first]);
        } else {
            assert(calls[q] == asked[q - middle]);
            assert(record.asked[q - middle].0 == name && record.asked[q - middle].1 == index);
        }
    }
}

/// The one place where a router of the step was asked.
proof fn lemma_asked_at<S, N: Runs<S, R>, R: Routes<S, N>>(
    graph: GraphView<N, R>,
    state: Arc<S>,
    records: Seq<StepRecord>,
    k: int,
    name: Name,
    index: int,
) -> (i: int)
    requires
        steps_made(graph, state, records),
        0 <= k < records.len(),
        records[k].outcome is Ok,
        graph.position(records.take(k)).current.contains(name),
        name != graph.end,
        graph.routers.dom().contains(name),
        0 <= index < graph.routers[name].len(),
    ensures
        0 <= i < records[k].asked.len(),
        records[k].asked[i] == (name, index, records[k].routes[name][index]),
        router_gives(
            graph.routers[name][index],
            &*state,
            history(graph, records.take(k)) + ran_entries(graph, records[k].applied)
                + asked_entries(graph, records[k].asked.take(i)),
            records[k].routes[name][index],
        ),
        forall|j: int|
            0 <= j < records[k].asked.len() && (#[trigger] records[k].asked[j]).0 == name
                && records[k].asked[j].1 == index ==> j == i,
{
    let record = records[k];
    let target = record.routes[name][index];
    let at = graph.position(records.take(k));
    lemma_step_made(graph, state, records, k);
    assert(graph.entered(at).current.contains(name));
    assert(was_asked(record.asked, name, index, target));
    let i = record.asked.index_of((name, index, target));
    assert(record.asked[i] == (name, index, target));
    assert forall|j: int|
        0 <= j < record.asked.len() && (#[trigger] record.asked[j]).0 == name && record.asked[j].1
            == index implies j == i by {
        if j < i {
            assert(!(record.asked[j].0 == record.asked[i].0 && record.asked[j].1
                == record.asked[i].1));
        } else if i < j {
            assert(!(record.asked[i].0 == record.asked[j].0 && record.asked[i].1
                == record.asked[j].1));
        }
    }
    i
}

/// The calls that a run makes in a step are to the nodes of the registered names
/// of the step, and, if all of these come out well, to the routers of its names;
/// each comes out as it can after all calls before, and no node is run twice. A
/// step that fails asks no router.
pub proof fn a_step_calls_what_is_current<S, N: Runs<S, R>, R: Routes<S, N>>(
    graph: GraphView<N, R>,
    state: Arc<S>,
    records: Seq<StepRecord>,
    current: Seq<Set<Name>>,
    k: int,
)
    requires
        steps_made(graph, state, records),
        current.len() == records.len() + 1,
        current[0] == graph.start,
        forall|k: int, name: Name|
            0 < k < current.len() ==> (#[trigger] current[k].contains(name) <==> exists|from: Name|
                {
                    &&& #[trigger] current[k - 1].contains(from)
                    &&& from != graph.end
                    &&& {
                        ||| graph.edges.dom().contains(from) && graph.edges[from].contains(name)
                        ||| graph.routers.dom().contains(from) && records[k
                            - 1].routes[from].contains(name)
                    }
                }),
        0 <= k < records.len(),
    ensures
        ({
            let calls = history(graph, records);
            let first = history(graph, records.take(k)).len() as int;
            let next = history(graph, records.take(k + 1)).len() as int;
            &&& forall|p: int|
                first <= p < next ==> match #[trigger] calls[p] {
                    Entry::Ran { name, node, outcome } => {
                        &&& current[k].contains(name)
                        &&& name != graph.end
                        &&& graph.nodes.dom().contains(name)
                        &&& node == graph.nodes[name]
                        &&& node_gives(node, state, calls.take(p), outcome)
                    },
                    Entry::Asked { name, index, router, target } => {
                        &&& records[k].outcome is Ok
                        &&& current[k].contains(name)
                        &&& name != graph.end
                        &&& graph.routers.dom().contains(name)
                        &&& 0 <= index < graph.routers[name].len()
                        &&& router == graph.routers[name][index]
                        &&& target == records[k].routes[name][index]
                        &&& router_gives(router, &*state, calls.take(p), target)
                    },
                }
            &&& forall|p: int, q: int|
                first <= p < q < next && #[trigger] calls[p] is Ran && #[trigger] calls[q] is Ran
                    ==> calls[p]->Ran_name != calls[q]->Ran_name
        }),
{
    a_run_is_where_its_steps_led(graph, records, current, k);
    lemma_step_calls(graph, state, records, current[k], k);
}

/// The calls of a step, given the names that are current.
proof fn lemma_step_calls<S, N: Runs<S, R>, R: Routes<S, N>>(
    graph: GraphView<N, R>,
    state: Arc<S>,
    records: Seq<StepRecord>,
    now: Set<Name>,
    k: int,
)
    requires
        steps_made(graph, state, records),
        now == graph.position(records.take(k)).current,
        0 <= k < records.len(),
    ensures
        ({
            let calls = history(graph, records);
            let first = history(graph, records.take(k)).len() as int;
            let next = history(graph, records.take(k + 1)).len() as int;
            &&& forall|p: int|
                first <= p < next ==> match #[trigger] calls[p] {
                    Entry::Ran { name, node, outcome } => {
                        &&& now.contains(name)
                        &&& name != graph.end
                        &&& graph.nodes.dom().contains(name)
                        &&& node == graph.nodes[name]
                        &&& node_gives(node, state, calls.take(p), outcome)
                    },
                    Entry::Asked { name, index, router, target } => {
                        &&& records[k].outcome is Ok
                        &&& now.contains(name)
                        &&& name != graph.end
                        &&& graph.routers.dom().contains(name)
                        &&& 0 <= index < graph.routers[name].len()
                        &&& router == graph.routers[name][index]
                        &&& target == records[k].routes[name][index]
                        &&& router_gives(router, &*state, calls.take(p), target)
                    },
                }
            &&& forall|p: int, q: int|
                first <= p < q < next && #[trigger] calls[p] is Ran && #[trigger] calls[q] is Ran
                    ==> calls[p]->Ran_name != calls[q]->Ran_name
        }),
{
    let record = records[k];
    let calls = history(graph, records);
    let before = history(graph, records.take(k));
    let ran = ran_entries(graph, record.applied);
    let asked = asked_entries(graph, record.asked);
    let at = graph.position(records.take(k));
    let first = before.len() as int;
    let middle = first + record.applied.len();
    let next = middle + record.asked.len();
    lemma_step_made(graph, state, records, k);
    lemma_calls_of_step(graph, records, k);
    lemma_step_nodes(graph, state, records, now, k);
    assert forall|p: int| first <= p < middle implies {
        &&& #[trigger] calls[p] matches Entry::Ran { name, node, outcome }
        &&& now.contains(name)
        &&& name != graph.end
        &&& graph.nodes.dom().contains(name)
        &&& node == graph.nodes[name]
        &&& node_gives(node, state, calls.take(p), outcome)
    } by {
        let i = p - first;
        assert(calls[p] == ran[i]);
        assert(calls.take(p) == before + ran_entries(graph, record.applied.take(i)));
        assert(node_gives(
            graph.nodes[record.applied[i].0],
            state,
            before + ran_entries(graph, record.applied.take(i)),
            record.applied[i].1,
        ));
        assert(record.applied[i].0 == calls[p]->Ran_name);
    }
    assert forall|p: int| middle <= p < next implies {
        &&& #[trigger] calls[p] matches Entry::Asked { name, index, router, target }
        &&& records[k].outcome is Ok
        &&& now.contains(name)
        &&& name != graph.end
        &&& graph.routers.dom().contains(name)
        &&& 0 <= index < graph.routers[name].len()
        &&& router == graph.routers[name][index]
        &&& target == records[k].routes[name][index]
        &&& router_gives(router, &*state, calls.take(p), target)
    } by {
        let i = p - middle;
        assert(calls[p] == asked[i]);
        assert(calls.take(p) == before + ran + asked_entries(graph, record.asked.take(i)));
        let (name, index, target) = record.asked[i];
        assert(graph.entered(at).current.contains(name));
    }
    assert forall|p: int, q: int|
        first <= p < q < next && #[trigger] calls[p] is Ran && #[trigger] calls[q] is Ran implies
        calls[p]->Ran_name != calls[q]->Ran_name by {
        if q >= middle {
            assert(calls[q] == asked[q - middle]);
        } else {
            assert(calls[p] == ran[p - first] && calls[q] == ran[q - first]);
            assert(record.applied[p - first].0 != record.applied[q - first].0);
        }
    }
}

/// A streamed run that no node failed stops only when its budget is used up or
/// when no current name other than the end is left; and then it does stop. So
/// where control comes to a name other than the end, and budget is left, the run
/// takes the next step, whether or not it reached the end before.
pub proof fn a_stream_goes_on_while_it_can<N, R>(
    graph: GraphView<N, R>,
    records: Seq<StepRecord>,
    current: Seq<Set<Name>>,
)
    requires
        graph.stream_run(records),
        current.len() == records.len() + 1,
        current[0] == graph.start,
        forall|k: int, name: Name|
            0 < k < current.len() ==> (#[trigger] current[k].contains(name) <==> exists|from: Name|
                {
                    &&& #[trigger] current[k - 1].contains(from)
                    &&& from != graph.end
                    &&& {
                        ||| graph.edges.dom().contains(from) && graph.edges[from].contains(name)
                        ||| graph.routers.dom().contains(from) && records[k
                            - 1].routes[from].contains(name)
                    }
                }),
    ensures
        records.len() <= graph.max_steps,
        forall|k: int| 0 <= k < records.len() - 1 ==> (#[trigger] records[k]).outcome is Ok,
        forall|k: int, name: Name|
            #![trigger current[k].contains(name)]
            {
                &&& 0 <= k <= records.len()
                &&& k < graph.max_steps
                &&& k == records.len() && k > 0 ==> records[k - 1].outcome is Ok
                &&& current[k].contains(name)
                &&& name != graph.end
            } ==> k < records.len(),
{
    let len = records.len() as int;
    runs_keep_the_budget(graph, records, Ok(()));
    assert forall|k: int| 0 <= k < len - 1 implies (#[trigger] records[k]).outcome is Ok by {
        an_error_is_the_end(graph, records, Ok(()), k);
    }
    assert(records.take(len) =~= records);
    a_run_is_where_its_steps_led(graph, records, current, len);
    a_stream_stops_at(graph, graph.position(records));
}

/// A streamed run takes a step only on a name other than the end.
pub proof fn a_stream_takes_no_idle_step<N, R>(
    graph: GraphView<N, R>,
    records: Seq<StepRecord>,
    current: Seq<Set<Name>>,
    k: int,
)
    requires
        graph.stream_run(records),
        current.len() == records.len() + 1,
        current[0] == graph.start,
        forall|k: int, name: Name|
            0 < k < current.len() ==> (#[trigger] current[k].contains(name) <==> exists|from: Name|
                {
                    &&& #[trigger] current[k - 1].contains(from)
                    &&& from != graph.end
                    &&& {
                        ||| graph.edges.dom().contains(from) && graph.edges[from].contains(name)
                        ||| graph.routers.dom().contains(from) && records[k
                            - 1].routes[from].contains(name)
                    }
                }),
        0 <= k < records.len(),
    ensures
        exists|name: Name| #[trigger] current[k].contains(name) && name != graph.end,
{
    a_run_is_where_its_steps_led(graph, records, current, k);
    a_stream_stops_at(graph, graph.position(records.take(k)));
    if failed(records) {
        let before = records.drop_last();
        if k < before.len() {
            assert(before.take(k) =~= records.take(k));
            lemma_going_on(graph, before, k);
        } else {
            assert(records.take(k) =~= before);
        }
    } else {
        lemma_going_on(graph, records, k);
    }
}

/// Where the events of a step are among those of all steps.
proof fn lemma_log_of_step<N, R>(graph: GraphView<N, R>, records: Seq<StepRecord>, k: int)
    requires
        0 <= k < records.len(),
    ensures
        ({
            let before = graph.steps_log(records.take(k));
            let step = graph.step_log(graph.position(records.take(k)), records[k]);
            let all = graph.steps_log(records);
            &&& before.len() + step.len() <= all.len()
            &&& graph.steps_log(records.take(k + 1)).len() == before.len() + step.len()
            &&& forall|i: int|
                0 <= i < step.len() ==> all[before.len() + i] == #[trigger] step[i]
        }),
    decreases records.len(),
{
    let before = graph.steps_log(records.take(k));
    let step = graph.step_log(graph.position(records.take(k)), records[k]);
    let all = graph.steps_log(records);
    let fewer = records.drop_last();
    assert(records.take(k + 1).drop_last() =~= records.take(k));
    assert(fewer.take(k) =~= records.take(k));
    if k < fewer.len() {
        lemma_log_of_step(graph, fewer, k);
        let part = graph.steps_log(fewer);
        assert forall|i: int| 0 <= i < step.len() implies all[before.len() + i]
            == #[trigger] step[i] by {
            assert(part[before.len() + i] == step[i]);
        }
    } else {
        assert(fewer =~= records.take(k));
    }
}

/// Where the events of each step of a streamed run start.
proof fn lemma_starts<N, R>(
    graph: GraphView<N, R>,
    records: Seq<StepRecord>,
    current: Seq<Set<Name>>,
    starts: Seq<int>,
    k: int,
)
    requires
        current.len() == records.len() + 1,
        current[0] == graph.start,
        forall|k: int, name: Name|
            0 < k < current.len() ==> (#[trigger] current[k].contains(name) <==> exists|from: Name|
                {
                    &&& #[trigger] current[k - 1].contains(from)
                    &&& from != graph.end
                    &&& {
                        ||| graph.edges.dom().contains(from) && graph.edges[from].contains(name)
                        ||| graph.routers.dom().contains(from) && records[k
                            - 1].routes[from].contains(name)
                    }
                }),
        starts.len() == records.len() + 1,
        starts[0] == 1,
        forall|k: int|
            0 < k < starts.len() ==> #[trigger] starts[k] == starts[k - 1] + if exists|name: Name|
                {
                    &&& #[trigger] current[k - 1].contains(name)
                    &&& name != graph.end
                    &&& graph.nodes.dom().contains(name)
                } {
                records[k - 1].node_events.len() as int + 2
            } else {
                1
            },
        0 <= k <= records.len(),
    ensures
        starts[k] == 1 + graph.steps_log(records.take(k)).len(),
    decreases k,
{
    if k == 0 {
        assert(records.take(0) =~= Seq::<StepRecord>::empty());
    } else {
        lemma_starts(graph, records, current, starts, k - 1);
        lemma_log_of_step(graph, records, k - 1);
        a_run_is_where_its_steps_led(graph, records, current, k - 1);
        let at = graph.position(records.take(k - 1));
        lemma_step_log_len(graph, at, records[k - 1], current[k - 1]);
    }
}

/// How many events a step has.
proof fn lemma_step_log_len<N, R>(
    graph: GraphView<N, R>,
    at: Position,
    record: StepRecord,
    current: Set<Name>,
)
    requires
        at.current == current,
    ensures
        graph.step_log(at, record).len() == if exists|name: Name|
            {
                &&& #[trigger] current.contains(name)
                &&& name != graph.end
                &&& graph.nodes.dom().contains(name)
            } {
            record.node_events.len() as int + 2
        } else {
            1
        },
{
    a_step_is_told(graph, at, record);
}

/// The log of a streamed run, step by step. It starts with the start of the run.
/// `starts` holds where the events of each step start: a step has one event, and
/// if nodes run in it, also its announcement and theirs.
///
/// A step in which nodes run is announced with the names of all of them, and
/// their events follow. Each step ends with its error, or with where control goes:
/// from its current names other than the end, to exactly the names that are
/// current in the next step, before the end is taken out.
pub proof fn a_stream_tells_each_step<N, R>(
    graph: GraphView<N, R>,
    records: Seq<StepRecord>,
    current: Seq<Set<Name>>,
    starts: Seq<int>,
    k: int,
)
    requires
        graph.stream_run(records),
        current.len() == records.len() + 1,
        current[0] == graph.start,
        forall|k: int, name: Name|
            0 < k < current.len() ==> (#[trigger] current[k].contains(name) <==> exists|from: Name|
                {
                    &&& #[trigger] current[k - 1].contains(from)
                    &&& from != graph.end
                    &&& {
                        ||| graph.edges.dom().contains(from) && graph.edges[from].contains(name)
                        ||| graph.routers.dom().contains(from) && records[k
                            - 1].routes[from].contains(name)
                    }
                }),
        starts.len() == records.len() + 1,
        starts[0] == 1,
        forall|k: int|
            0 < k < starts.len() ==> #[trigger] starts[k] == starts[k - 1] + if exists|name: Name|
                {
                    &&& #[trigger] current[k - 1].contains(name)
                    &&& name != graph.end
                    &&& graph.nodes.dom().contains(name)
                } {
                records[k - 1].node_events.len() as int + 2
            } else {
                1
            },
        0 <= k < records.len(),
    ensures
        ({
            let log = graph.stream_log(records);
            let from_nodes = current[k].remove(graph.end);
            let step = (k + 1) as nat;
            &&& log[0] == EventView::WorkflowStarted
            &&& 0 < starts[k] < starts[k + 1] <= log.len()
            &&& (exists|name: Name|
                {
                    &&& #[trigger] current[k].contains(name)
                    &&& name != graph.end
                    &&& graph.nodes.dom().contains(name)
                }) ==> {
                &&& log[starts[k]] == (EventView::StepStarted {
                    step,
                    nodes: from_nodes.intersect(graph.nodes.dom()),
                })
                &&& forall|i: int|
                    0 <= i < records[k].node_events.len() ==> log[starts[k] + 1 + i]
                        == #[trigger] records[k].node_events[i]
            }
            &&& match records[k].outcome {
                Err(error) => log[starts[k + 1] - 1] == (EventView::WorkflowError { step, error }),
                Ok(_) => log[starts[k + 1] - 1] == (EventView::RoutingDecision {
                    step,
                    from_nodes,
                    to_nodes: current[k + 1],
                }),
            }
        }),
{
    lemma_starts(graph, records, current, starts, k);
    lemma_starts(graph, records, current, starts, k + 1);
    a_run_is_where_its_steps_led(graph, records, current, k);
    a_run_is_where_its_steps_led(graph, records, current, k + 1);
    lemma_step_told(graph, records, current[k], current[k + 1], starts[k], starts[k + 1], k);
}

/// What a step tells, given the names that are current in it and after it, and
/// where its events start and end.
proof fn lemma_step_told<N, R>(
    graph: GraphView<N, R>,
    records: Seq<StepRecord>,
    now: Set<Name>,
    then: Set<Name>,
    first: int,
    next: int,
    k: int,
)
    requires
        0 <= k < records.len(),
        now == graph.position(records.take(k)).current,
        k == graph.position(records.take(k)).step,
        then == graph.position(records.take(k + 1)).current,
        first == 1 + graph.steps_log(records.take(k)).len(),
        next == 1 + graph.steps_log(records.take(k + 1)).len(),
    ensures
        ({
            let log = graph.stream_log(records);
            let from_nodes = now.remove(graph.end);
            let step = (k + 1) as nat;
            &&& log[0] == EventView::WorkflowStarted
            &&& 0 < first < next <= log.len()
            &&& (exists|name: Name|
                {
                    &&& #[trigger] now.contains(name)
                    &&& name != graph.end
                    &&& graph.nodes.dom().contains(name)
                }) ==> {
                &&& log[first] == (EventView::StepStarted {
                    step,
                    nodes: from_nodes.intersect(graph.nodes.dom()),
                })
                &&& forall|i: int|
                    0 <= i < records[k].node_events.len() ==> log[first + 1 + i]
                        == #[trigger] records[k].node_events[i]
            }
            &&& match records[k].outcome {
                Err(error) => log[next - 1] == (EventView::WorkflowError { step, error }),
                Ok(_) => log[next - 1] == (EventView::RoutingDecision {
                    step,
                    from_nodes,
                    to_nodes: then,
                }),
            }
        }),
{
    let at = graph.position(records.take(k));
    let record = records[k];
    let all = graph.steps_log(records);
    let log = graph.stream_log(records);
    let told = graph.step_log(at, record);
    lemma_log_of_step(graph, records, k);
    a_step_is_told(graph, at, record);
    assert(records.take(k + 1).drop_last() =~= records.take(k));
    assert(then == graph.stepped(at, record).current);
    assert forall|i: int| 0 <= i < told.len() implies log[first + i] == #[trigger] told[i] by {
        assert(all[first - 1 + i] == told[i]);
    }
    assert(log[next - 1] == told[told.len() - 1]);
    if exists|name: Name|
        {
            &&& #[trigger] now.contains(name)
            &&& name != graph.end
            &&& graph.nodes.dom().contains(name)
        } {
        assert(log[first] == told[0]);
        assert forall|i: int| 0 <= i < record.node_events.len() implies log[first + 1 + i]
            == #[trigger] record.node_events[i] by {
            assert(told[i + 1] == record.node_events[i]);
        }
    }
}

/// How the log of a streamed run ends: after the events of its steps nothing
/// follows if the last of them failed. Else the run tells that it has finished,
/// if the end was among the names of a step, or is among those left while budget
/// is left; and else that it never got there. With budget left, the step that
/// finds nothing to do is counted too.
pub proof fn a_stream_tells_its_end<N, R>(
    graph: GraphView<N, R>,
    records: Seq<StepRecord>,
    current: Seq<Set<Name>>,
    starts: Seq<int>,
)
    requires
        graph.stream_run(records),
        current.len() == records.len() + 1,
        current[0] == graph.start,
        forall|k: int, name: Name|
            0 < k < current.len() ==> (#[trigger] current[k].contains(name) <==> exists|from: Name|
                {
                    &&& #[trigger] current[k - 1].contains(from)
                    &&& from != graph.end
                    &&& {
                        ||| graph.edges.dom().contains(from) && graph.edges[from].contains(name)
                        ||| graph.routers.dom().contains(from) && records[k
                            - 1].routes[from].contains(name)
                    }
                }),
        starts.len() == records.len() + 1,
        starts[0] == 1,
        forall|k: int|
            0 < k < starts.len() ==> #[trigger] starts[k] == starts[k - 1] + if exists|name: Name|
                {
                    &&& #[trigger] current[k - 1].contains(name)
                    &&& name != graph.end
                    &&& graph.nodes.dom().contains(name)
                } {
                records[k - 1].node_events.len() as int + 2
            } else {
                1
            },
    ensures
        ({
            let log = graph.stream_log(records);
            let len = records.len() as int;
            let total_steps = if len == graph.max_steps {
                records.len()
            } else {
                records.len() + 1
            };
            if len > 0 && records[len - 1].outcome is Err {
                log.len() == starts[len]
            } else if exists|j: int|
                {
                    &&& 0 <= j <= len
                    &&& j < graph.max_steps
                    &&& (#[trigger] current[j]).contains(graph.end)
                } {
                &&& log.len() == starts[len] + 1
                &&& log[starts[len]] == (EventView::WorkflowFinished { total_steps })
            } else {
                &&& log.len() == starts[len] + 1
                &&& log[starts[len]] == (EventView::WorkflowError {
                    step: total_steps,
                    error: ErrorView::GraphError(
                        "Reached max_steps ("@ + decimal(graph.max_steps)
                            + ") without hitting the end node; the graph likely contains a cycle"@,
                    ),
                })
            }
        }),
{
    let len = records.len() as int;
    let at = graph.position(records);
    lemma_starts(graph, records, current, starts, len);
    runs_keep_the_budget(graph, records, Ok(()));
    assert(records.take(len) =~= records);
    a_run_is_where_its_steps_led(graph, records, current, len);
    let reached = exists|j: int|
        {
            &&& 0 <= j <= len
            &&& j < graph.max_steps
            &&& (#[trigger] current[j]).contains(graph.end)
        };
    assert(reached <==> at.reached_end || at.step < graph.max_steps && at.current.contains(
        graph.end,
    )) by {
        if reached {
            let j = choose|j: int|
                {
                    &&& 0 <= j <= len
                    &&& j < graph.max_steps
                    &&& (#[trigger] current[j]).contains(graph.end)
                };
            if j < len {
                assert(current[j].contains(graph.end));
            }
        }
        if at.reached_end {
            let j = choose|j: int| 0 <= j < len && (#[trigger] current[j]).contains(graph.end);
            assert(current[j].contains(graph.end));
        }
        if at.step < graph.max_steps && at.current.contains(graph.end) {
            assert(current[len].contains(graph.end));
        }
    }
    if !failed(records) {
        a_stream_ends_with(graph, at);
    }
}

/// In a step of a streamed run, the events between its announcement and its end
/// are those of its nodes: for each registered name other than the end that is
/// current, the start of its node and, later, its finish, each once and with the
/// number of the step, and for no other name any.
pub proof fn a_stream_tells_of_each_node<N, R>(
    graph: GraphView<N, R>,
    records: Seq<StepRecord>,
    current: Seq<Set<Name>>,
    k: int,
)
    requires
        node_logs(graph, records),
        current.len() == records.len() + 1,
        current[0] == graph.start,
        forall|k: int, name: Name|
            0 < k < current.len() ==> (#[trigger] current[k].contains(name) <==> exists|from: Name|
                {
                    &&& #[trigger] current[k - 1].contains(from)
                    &&& from != graph.end
                    &&& {
                        ||| graph.edges.dom().contains(from) && graph.edges[from].contains(name)
                        ||| graph.routers.dom().contains(from) && records[k
                            - 1].routes[from].contains(name)
                    }
                }),
        0 <= k < records.len(),
    ensures
        ({
            let events = records[k].node_events;
            let step = (k + 1) as nat;
            &&& forall|i: int|
                0 <= i < events.len() ==> {
                    let name = match #[trigger] events[i] {
                        EventView::NodeStarted { name, .. } => name,
                        EventView::NodeFinished { name, .. } => name,
                        _ => graph.end,
                    };
                    &&& current[k].contains(name)
                    &&& name != graph.end
                    &&& graph.nodes.dom().contains(name)
                    &&& {
                        ||| events[i] == (EventView::NodeStarted { step, name })
                        ||| events[i] == (EventView::NodeFinished { step, name })
                    }
                }
            &&& forall|name: Name| #[trigger]
                current[k].contains(name) && name != graph.end && graph.nodes.dom().contains(name)
                    ==> exists|i: int, j: int|
                    {
                        &&& 0 <= i < j < events.len()
                        &&& #[trigger] events[i] == (EventView::NodeStarted { step, name })
                        &&& #[trigger] events[j] == (EventView::NodeFinished { step, name })
                    }
            &&& forall|i: int, j: int|
                0 <= i < j < events.len() ==> #[trigger] events[i] != #[trigger] events[j]
        }),
{
    a_run_is_where_its_steps_led(graph, records, current, k);
    lemma_node_events(graph, records, current[k], k);
}

/// The events of the nodes of a step, given the names that are current.
proof fn lemma_node_events<N, R>(
    graph: GraphView<N, R>,
    records: Seq<StepRecord>,
    now: Set<Name>,
    k: int,
)
    requires
        node_logs(graph, records),
        0 <= k < records.len(),
        now == graph.position(records.take(k)).current,
        k == graph.position(records.take(k)).step,
    ensures
        ({
            let events = records[k].node_events;
            let step = (k + 1) as nat;
            &&& forall|i: int|
                0 <= i < events.len() ==> {
                    let name = match #[trigger] events[i] {
                        EventView::NodeStarted { name, .. } => name,
                        EventView::NodeFinished { name, .. } => name,
                        _ => graph.end,
                    };
                    &&& now.contains(name)
                    &&& name != graph.end
                    &&& graph.nodes.dom().contains(name)
                    &&& {
                        ||| events[i] == (EventView::NodeStarted { step, name })
                        ||| events[i] == (EventView::NodeFinished { step, name })
                    }
                }
            &&& forall|name: Name| #[trigger]
                now.contains(name) && name != graph.end && graph.nodes.dom().contains(name)
                    ==> exists|i: int, j: int|
                    {
                        &&& 0 <= i < j < events.len()
                        &&& #[trigger] events[i] == (EventView::NodeStarted { step, name })
                        &&& #[trigger] events[j] == (EventView::NodeFinished { step, name })
                    }
            &&& forall|i: int, j: int|
                0 <= i < j < events.len() ==> #[trigger] events[i] != #[trigger] events[j]
        }),
    decreases records.len(),
{
    let before = records.drop_last();
    assert(before.take(k) =~= records.take(k));
    if k < before.len() {
        lemma_node_events(graph, before, now, k);
    } else {
        assert(records.take(k) =~= before);
        let events = records[k].node_events;
        let step = (k + 1) as nat;
        let nodes = graph.runnable(graph.entered(graph.position(before)).current);
        assert(node_log(events, step, nodes));
        assert forall|name: Name| #[trigger]
            now.contains(name) && name != graph.end && graph.nodes.dom().contains(
                name,
            ) implies exists|i: int, j: int|
            {
                &&& 0 <= i < j < events.len()
                &&& #[trigger] events[i] == (EventView::NodeStarted { step, name })
                &&& #[trigger] events[j] == (EventView::NodeFinished { step, name })
            } by {
            assert(nodes.contains(name));
        }
    }
}

} // verus!

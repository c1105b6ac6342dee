//! Which graphs compile, and what the others are rejected with, said of their
//! names, nodes and edges.

use vstd::prelude::*;

use crate::error::ErrorView;
use crate::model::GraphView;
use crate::names::Name;

verus! {

/// In every graph that compiles, with or without conditional edges, each name
/// that has static edges and each target of a static edge is a start name, the
/// end or the name of a node.
pub proof fn static_edges_join_parts_of_the_graph<N, R>(
    graph: GraphView<N, R>,
    from: Name,
    target: Name,
)
    requires
        graph.valid(),
        graph.edges.dom().contains(from),
        graph.edges[from].contains(target),
    ensures
        graph.start.contains(from) || from == graph.end || graph.nodes.dom().contains(from),
        graph.start.contains(target) || target == graph.end || graph.nodes.dom().contains(target),
{
    assert(graph.static_edge(from, target));
    assert(graph.endpoint(from) && graph.endpoint(target));
}

/// A graph compiles if and only if a run may take a step; there are start names,
/// none of them empty and none of them the end, each with edges; the end is not
/// empty; there are nodes, and none has an empty name; the start marker, where it
/// is a start name, has no node; static edges lead from and to start names, the end
/// or nodes, and conditional edges from start names or nodes; no name has edges of
/// both kinds; and where steps are not limited, no static edges lead in a circle.
pub proof fn what_compiles<N, R>(graph: GraphView<N, R>)
    ensures
        graph.valid() <==> {
            &&& graph.max_steps > 0
            &&& exists|start: Name| #[trigger] graph.start.contains(start)
            &&& forall|start: Name| #[trigger]
                graph.start.contains(start) ==> {
                    &&& start.len() > 0
                    &&& start != graph.end
                    &&& graph.edges.dom().contains(start) || graph.routers.dom().contains(start)
                }
            &&& graph.end.len() > 0
            &&& exists|name: Name| #[trigger] graph.nodes.dom().contains(name)
            &&& forall|name: Name| #[trigger]
                graph.nodes.dom().contains(name) ==> {
                    &&& name.len() > 0
                    &&& !(name == "__start__"@ && graph.start.contains(name))
                }
            &&& forall|from: Name| #[trigger]
                graph.edges.dom().contains(from) ==> {
                    &&& graph.start.contains(from) || from == graph.end
                        || graph.nodes.dom().contains(from)
                    &&& !graph.routers.dom().contains(from)
                    &&& forall|target: Name| #[trigger]
                        graph.edges[from].contains(target) ==> graph.start.contains(target)
                            || target == graph.end || graph.nodes.dom().contains(target)
                }
            &&& forall|from: Name| #[trigger]
                graph.routers.dom().contains(from) ==> graph.start.contains(from)
                    || graph.nodes.dom().contains(from)
            &&& graph.max_steps == usize::MAX ==> forall|way: Seq<Name>|
                {
                    &&& way.len() > 1
                    &&& way[0] == #[trigger] way.last()
                } ==> exists|i: int|
                    {
                        &&& 0 <= i < way.len() - 1
                        &&& !(graph.edges.dom().contains(#[trigger] way[i])
                            && graph.edges[way[i]].contains(way[i + 1]))
                    }
        },
{
    lemma_rules_of_names(graph);
    lemma_rules_of_edges(graph);
    lemma_rule_of_cycles(graph);
}

/// The rules of the start, the end and the nodes, one by one.
proof fn lemma_rules_of_names<N, R>(graph: GraphView<N, R>)
    ensures
        graph.budget_rule() <==> graph.max_steps > 0,
        graph.start_set_rule() <==> exists|start: Name| #[trigger] graph.start.contains(start),
        graph.start_names_rule() <==> forall|start: Name| #[trigger]
            graph.start.contains(start) ==> start.len() > 0,
        graph.end_name_rule() <==> graph.end.len() > 0,
        graph.some_node_rule() <==> exists|name: Name| #[trigger] graph.nodes.dom().contains(name),
        graph.node_names_rule() <==> forall|name: Name| #[trigger]
            graph.nodes.dom().contains(name) ==> name.len() > 0,
        graph.start_not_end_rule() <==> !graph.start.contains(graph.end),
        graph.start_marker_rule() <==> !(graph.start.contains("__start__"@)
            && graph.nodes.dom().contains("__start__"@)),
        graph.start_edges_rule() <==> forall|start: Name| #[trigger]
            graph.start.contains(start) ==> graph.edges.dom().contains(start)
                || graph.routers.dom().contains(start),
{
    if !(exists|start: Name| #[trigger] graph.start.contains(start)) {
        assert(graph.start =~= Set::<Name>::empty());
    }
    if !(exists|name: Name| #[trigger] graph.nodes.dom().contains(name)) {
        assert(graph.nodes.dom() =~= Set::<Name>::empty());
    }
    assert(forall|name: Name|
        graph.registered(name) <==> #[trigger] graph.nodes.dom().contains(name));
}

/// The rules of the edges but those of circles, one by one.
proof fn lemma_rules_of_edges<N, R>(graph: GraphView<N, R>)
    ensures
        graph.static_edges_rule() <==> {
            &&& forall|from: Name| #[trigger]
                graph.edges.dom().contains(from) ==> graph.start.contains(from) || from
                    == graph.end || graph.nodes.dom().contains(from)
            &&& forall|from: Name, target: Name|
                graph.edges.dom().contains(from) && #[trigger] graph.edges[from].contains(target)
                    ==> graph.start.contains(target) || target == graph.end
                    || graph.nodes.dom().contains(target)
        },
        graph.conditional_edges_rule() <==> forall|from: Name| #[trigger]
            graph.routers.dom().contains(from) ==> graph.start.contains(from)
                || graph.nodes.dom().contains(from),
        graph.one_edge_kind_rule() <==> forall|from: Name| #[trigger]
            graph.edges.dom().contains(from) ==> !graph.routers.dom().contains(from),
{
    if graph.static_edges_rule() {
        assert forall|from: Name, target: Name|
            graph.edges.dom().contains(from) && #[trigger] graph.edges[from].contains(
                target,
            ) implies graph.start.contains(target) || target == graph.end
            || graph.nodes.dom().contains(target) by {
            assert(graph.static_edge(from, target));
        }
    }
}

/// The rule of circles.
proof fn lemma_rule_of_cycles<N, R>(graph: GraphView<N, R>)
    ensures
        graph.cycle_rule() <==> (graph.max_steps == usize::MAX ==> forall|way: Seq<Name>|
            {
                &&& way.len() > 1
                &&& way[0] == #[trigger] way.last()
            } ==> exists|i: int|
                {
                    &&& 0 <= i < way.len() - 1
                    &&& !(graph.edges.dom().contains(#[trigger] way[i])
                        && graph.edges[way[i]].contains(way[i + 1]))
                }),
{
    assert forall|way: Seq<Name>|
        {
            &&& way.len() > 1
            &&& way[0] == #[trigger] way.last()
        } && !graph.static_cycle(way) implies exists|i: int|
        {
            &&& 0 <= i < way.len() - 1
            &&& !(graph.edges.dom().contains(#[trigger] way[i]) && graph.edges[way[i]].contains(
                way[i + 1],
            ))
        } by {
        let i = choose|i: int|
            0 <= i < way.len() - 1 && !graph.static_edge(#[trigger] way[i], way[i + 1]);
        assert(!(graph.edges.dom().contains(way[i]) && graph.edges[way[i]].contains(way[i + 1])));
    }
    assert forall|way: Seq<Name>| #[trigger] graph.static_cycle(way) implies {
        &&& way.len() > 1
        &&& way[0] == way.last()
        &&& forall|i: int|
            0 <= i < way.len() - 1 ==> graph.edges.dom().contains(#[trigger] way[i])
                && graph.edges[way[i]].contains(way[i + 1])
    } by {
        assert forall|i: int| 0 <= i < way.len() - 1 implies graph.edges.dom().contains(
            #[trigger] way[i],
        ) && graph.edges[way[i]].contains(way[i + 1]) by {
            assert(graph.static_edge(way[i], way[i + 1]));
        }
    }
    if graph.cycle_rule() && graph.max_steps == usize::MAX {
        assert forall|way: Seq<Name>|
            {
                &&& way.len() > 1
                &&& way[0] == #[trigger] way.last()
            } implies !graph.static_cycle(way) by {}
    }
    if exists|way: Seq<Name>| #[trigger] graph.static_cycle(way) {
        let way = choose|way: Seq<Name>| #[trigger] graph.static_cycle(way);
        assert(way[0] == way.last());
        assert(!exists|i: int|
            {
                &&& 0 <= i < way.len() - 1
                &&& !(graph.edges.dom().contains(#[trigger] way[i])
                    && graph.edges[way[i]].contains(way[i + 1]))
            });
    }
}

/// What a graph is rejected with that breaks a rule of its budget, its start or
/// end, or its nodes. The rules are taken in this order, and the first that is
/// broken is reported.
pub proof fn what_breaks_a_rule_of_names<N, R>(graph: GraphView<N, R>, error: ErrorView)
    requires
        graph.rejected_with(error),
    ensures
        ({
            let no_start = forall|start: Name| !#[trigger] graph.start.contains(start);
            let empty_start = exists|start: Name| #[trigger]
                graph.start.contains(start) && start.len() == 0;
            let no_node = forall|name: Name| !#[trigger] graph.nodes.dom().contains(name);
            let empty_node = exists|name: Name| #[trigger]
                graph.nodes.dom().contains(name) && name.len() == 0;
            let marker_node = graph.start.contains("__start__"@) && graph.nodes.dom().contains(
                "__start__"@,
            );
            if graph.max_steps == 0 {
                error == ErrorView::GraphError("max_steps must be greater than 0"@)
            } else if no_start {
                error == ErrorView::GraphError("Start node set cannot be empty"@)
            } else if empty_start {
                error == ErrorView::GraphError("Start node cannot be empty"@)
            } else if graph.end.len() == 0 {
                error == ErrorView::GraphError("End node cannot be empty"@)
            } else if no_node {
                error == ErrorView::GraphError("Graph must contain at least one node"@)
            } else if empty_node {
                error == ErrorView::GraphError("Node name cannot be empty"@)
            } else if graph.start.contains(graph.end) {
                error == ErrorView::GraphError("Start node and end node cannot be the same"@)
            } else if marker_node {
                error == ErrorView::GraphError(
                    "Start node '"@ + "__start__"@ + "' cannot be a normal node"@,
                )
            } else {
                true
            }
        }),
{
    lemma_rules_of_names(graph);
}

/// What a graph is rejected with that keeps the rules of names and breaks one of
/// its edges. The rules are taken in this order, and the first that is broken is
/// reported, with a name that breaks it.
pub proof fn what_breaks_a_rule_of_edges<N, R>(graph: GraphView<N, R>, error: ErrorView)
    requires
        graph.rejected_with(error),
        graph.max_steps > 0,
        exists|start: Name| #[trigger] graph.start.contains(start),
        forall|start: Name| #[trigger]
            graph.start.contains(start) ==> start.len() > 0 && start != graph.end,
        graph.end.len() > 0,
        exists|name: Name| #[trigger] graph.nodes.dom().contains(name),
        forall|name: Name| #[trigger]
            graph.nodes.dom().contains(name) ==> name.len() > 0 && !(name == "__start__"@
                && graph.start.contains(name)),
    ensures
        ({
            let stuck_start = exists|start: Name|
                {
                    &&& #[trigger] graph.start.contains(start)
                    &&& !graph.edges.dom().contains(start)
                    &&& !graph.routers.dom().contains(start)
                };
            let stray_source = exists|from: Name|
                {
                    &&& #[trigger] graph.edges.dom().contains(from)
                    &&& !graph.start.contains(from)
                    &&& from != graph.end
                    &&& !graph.nodes.dom().contains(from)
                };
            let stray_target = exists|from: Name, target: Name|
                {
                    &&& graph.edges.dom().contains(from)
                    &&& #[trigger] graph.edges[from].contains(target)
                    &&& !graph.start.contains(target)
                    &&& target != graph.end
                    &&& !graph.nodes.dom().contains(target)
                };
            let stray_router = exists|from: Name|
                {
                    &&& #[trigger] graph.routers.dom().contains(from)
                    &&& !graph.start.contains(from)
                    &&& !graph.nodes.dom().contains(from)
                };
            let circle = graph.max_steps == usize::MAX && exists|way: Seq<Name>|
                {
                    &&& way.len() > 1
                    &&& way[0] == #[trigger] way.last()
                    &&& forall|i: int|
                        0 <= i < way.len() - 1 ==> graph.edges.dom().contains(#[trigger] way[i])
                            && graph.edges[way[i]].contains(way[i + 1])
                };
            if stuck_start {
                exists|start: Name|
                    {
                        &&& #[trigger] graph.start.contains(start)
                        &&& !graph.edges.dom().contains(start)
                        &&& !graph.routers.dom().contains(start)
                        &&& error == ErrorView::GraphError(
                            "Start node '"@ + start + "' must have at least one outgoing edge"@,
                        )
                    }
            } else if stray_source || stray_target {
                ||| exists|from: Name|
                    {
                        &&& #[trigger] graph.edges.dom().contains(from)
                        &&& !graph.start.contains(from)
                        &&& from != graph.end
                        &&& !graph.nodes.dom().contains(from)
                        &&& error == ErrorView::GraphError(
                            "Static edge source '"@ + from + "' is not a registered node"@,
                        )
                    }
                ||| exists|from: Name, target: Name|
                    {
                        &&& graph.edges.dom().contains(from)
                        &&& #[trigger] graph.edges[from].contains(target)
                        &&& !graph.start.contains(target)
                        &&& target != graph.end
                        &&& !graph.nodes.dom().contains(target)
                        &&& error == ErrorView::GraphError(
                            "Static edge target '"@ + target + "' (from '"@ + from
                                + "') is not a registered node"@,
                        )
                    }
            } else if stray_router {
                exists|from: Name|
                    {
                        &&& #[trigger] graph.routers.dom().contains(from)
                        &&& !graph.start.contains(from)
                        &&& !graph.nodes.dom().contains(from)
                        &&& error == ErrorView::GraphError(
                            "Conditional edge source '"@ + from + "' is not a registered node"@,
                        )
                    }
            } else if circle {
                error == ErrorView::GraphError(
                    "Graph contains a cycle of static edges; max_steps must be set"@,
                )
            } else {
                exists|from: Name|
                    {
                        &&& #[trigger] graph.edges.dom().contains(from)
                        &&& graph.routers.dom().contains(from)
                        &&& error == ErrorView::GraphError(
                            "Node '"@ + from
                                + "' cannot have both static edges and conditional edges"@,
                        )
                    }
            }
        }),
{
    lemma_rules_of_names(graph);
    lemma_rules_of_edges(graph);
    lemma_rule_of_cycles(graph);
    let circle = exists|way: Seq<Name>|
        {
            &&& way.len() > 1
            &&& way[0] == #[trigger] way.last()
            &&& forall|i: int|
                0 <= i < way.len() - 1 ==> graph.edges.dom().contains(#[trigger] way[i])
                    && graph.edges[way[i]].contains(way[i + 1])
        };
    if graph.max_steps == usize::MAX {
        assert(circle <==> !graph.cycle_rule());
    }
    if graph.start_edges_rule() && !graph.static_edges_rule() {
        if exists|from: Name, target: Name|
            {
                &&& #[trigger] graph.static_edge(from, target)
                &&& graph.endpoint(from)
                &&& !graph.endpoint(target)
                &&& error == ErrorView::GraphError(
                    crate::graph_validator::static_target_text(target, from),
                )
            } {
            let (from, target) = choose|from: Name, target: Name|
                {
                    &&& #[trigger] graph.static_edge(from, target)
                    &&& graph.endpoint(from)
                    &&& !graph.endpoint(target)
                    &&& error == ErrorView::GraphError(
                        crate::graph_validator::static_target_text(target, from),
                    )
                };
            assert(graph.edges[from].contains(target));
        }
    }
}

} // verus!

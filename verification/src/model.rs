//! Graphs as contracts see them.

use vstd::prelude::*;

use crate::names::{Name, NameMap, NameSet};

verus! {

/// A workflow graph: what its nodes are, where control goes from each of them,
/// where it comes in and goes out, and how many steps a run may take.
#[verifier::ext_equal]
pub ghost struct GraphView<N, R> {
    /// The registered nodes.
    pub nodes: Map<Name, N>,
    /// The fixed targets of each name that has static edges.
    pub edges: Map<Name, Set<Name>>,
    /// The routers of each name that has conditional edges.
    pub routers: Map<Name, Seq<R>>,
    /// The names that a run starts from.
    pub start: Set<Name>,
    /// The name that ends a run.
    pub end: Name,
    /// The number of steps that a run may take.
    pub max_steps: nat,
}

impl<N, R> GraphView<N, R> {
    /// Whether the graph has a node of this name.
    pub open spec fn registered(self, name: Name) -> bool {
        self.nodes.dom().contains(name)
    }

    /// Whether edges of either kind go out from this name. It need not be a
    /// node: a start marker has edges too.
    pub open spec fn has_edges(self, name: Name) -> bool {
        self.edges.dom().contains(name) || self.routers.dom().contains(name)
    }

    /// Whether the graph knows the name: as a node, as the source of edges, or
    /// as the end.
    pub open spec fn known(self, name: Name) -> bool {
        self.registered(name) || self.has_edges(name) || name == self.end
    }
}

impl<N, R> GraphView<N, R> {
    /// The graph with a node added, in place of a node of the same name.
    pub open spec fn with_node(self, name: Name, node: N) -> Self {
        GraphView { nodes: self.nodes.insert(name, node), ..self }
    }

    /// The graph with static edges added, in place of those that the name had.
    pub open spec fn with_edges(self, from: Name, to: Set<Name>) -> Self {
        GraphView { edges: self.edges.insert(from, to), ..self }
    }

    /// The graph with conditional edges added, in place of those that the name
    /// had.
    pub open spec fn with_routers(self, from: Name, routers: Seq<R>) -> Self {
        GraphView { routers: self.routers.insert(from, routers), ..self }
    }
}

/// The target sets of static edges.
pub open spec fn edges_view(edges: Map<Name, NameSet>) -> Map<Name, Set<Name>> {
    edges.map_values(|targets: NameSet| targets@)
}

/// The router lists of conditional edges.
pub open spec fn routers_view<R>(routers: Map<Name, Vec<R>>) -> Map<Name, Seq<R>> {
    routers.map_values(|list: Vec<R>| list@)
}

/// Every target set is valid.
pub open spec fn edges_wf(edges: &NameMap<NameSet>) -> bool {
    &&& edges.wf()
    &&& forall|from: Name| #[trigger] edges@.dom().contains(from) ==> edges@[from].wf()
}

/// The edges of a graph are those that its collections hold: the same names have
/// edges, with the same targets and the same routers in their order.
pub proof fn edges_are_seen_as_they_are<R>(
    edges: Map<Name, NameSet>,
    routers: Map<Name, Vec<R>>,
    name: Name,
)
    ensures
        edges_view(edges).dom().contains(name) <==> edges.dom().contains(name),
        edges.dom().contains(name) ==> edges_view(edges)[name] == edges[name]@,
        routers_view(routers).dom().contains(name) <==> routers.dom().contains(name),
        routers.dom().contains(name) ==> routers_view(routers)[name] == routers[name]@,
{
}

} // verus!

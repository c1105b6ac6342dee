//! Building graphs.

use vstd::prelude::*;

use crate::error::LangGraphError;
use crate::graph_validator::GraphValidator;
use crate::model::{edges_view, edges_wf, routers_view, GraphView};
use crate::names::{Name, NameMap, NameSet};
use crate::state_graph::StateGraph;

verus! {

/// The name that a run starts from unless another is set. It is a marker: it
/// has edges, but no node.
pub const START_NODE: &'static str = "__start__";

/// The name that ends a run unless another is set.
pub const END_NODE: &'static str = "__end__";

/// A workflow graph in the making. Nodes are of type `N`, routers of type `R`.
///
/// Nothing is checked before [`compile`](StateGraphBuilder::compile): nodes
/// and edges can be added in any order. What is set again replaces what was
/// set before.
pub struct StateGraphBuilder<N, R> {
    nodes: NameMap<N>,
    edges: NameMap<NameSet>,
    conditional_edges: NameMap<Vec<R>>,
    start_nodes: NameSet,
    end_node: String,
    max_steps: usize,
}

impl<N, R> View for StateGraphBuilder<N, R> {
    type V = GraphView<N, R>;

    closed spec fn view(&self) -> GraphView<N, R> {
        GraphView {
            nodes: self.nodes@,
            edges: edges_view(self.edges@),
            routers: routers_view(self.conditional_edges@),
            start: self.start_nodes@,
            end: self.end_node@,
            max_steps: self.max_steps as nat,
        }
    }
}

/// A graph without nodes or edges, between the default start and end, with no
/// practical limit on the steps of a run.
pub open spec fn empty_graph<N, R>() -> GraphView<N, R> {
    GraphView {
        nodes: Map::empty(),
        edges: Map::empty(),
        routers: Map::empty(),
        start: set![START_NODE@],
        end: END_NODE@,
        max_steps: usize::MAX as nat,
    }
}

impl<N, R> Default for StateGraphBuilder<N, R> {
    fn default() -> (builder: Self)
        ensures
            builder.wf(),
            builder@ == empty_graph::<N, R>(),
    {
        Self::new()
    }
}

impl<N, R> StateGraphBuilder<N, R> {
    /// The collections are valid.
    pub closed spec fn wf(&self) -> bool {
        &&& self.nodes.wf()
        &&& edges_wf(&self.edges)
        &&& self.conditional_edges.wf()
        &&& self.start_nodes.wf()
    }

    /// A builder of a graph without nodes or edges.
    pub fn new() -> (builder: Self)
        ensures
            builder.wf(),
            builder@ == empty_graph::<N, R>(),
    {
        let mut start_nodes = NameSet::new();
        start_nodes.insert(START_NODE.to_string());
        let builder = StateGraphBuilder {
            nodes: NameMap::new(),
            edges: NameMap::new(),
            conditional_edges: NameMap::new(),
            start_nodes,
            end_node: END_NODE.to_string(),
            max_steps: usize::MAX,
        };
        assert(builder@ =~= empty_graph::<N, R>());
        builder
    }

    /// Limits the number of steps of a run.
    pub fn set_max_steps(&mut self, max_steps: usize) -> (builder: &mut Self)
        requires
            old(self).wf(),
        ensures
            builder.wf(),
            builder@ == (GraphView { max_steps: max_steps as nat, ..old(self)@ }),
            *final(self) == *final(builder),
    {
        self.max_steps = max_steps;
        self
    }

    /// Registers a node. It replaces a node of the same name.
    pub fn add_node(&mut self, name: &str, node: N) -> (builder: &mut Self)
        requires
            old(self).wf(),
        ensures
            builder.wf(),
            builder@ == old(self)@.with_node(name@, node),
            *final(self) == *final(builder),
    {
        self.nodes.insert(name.to_string(), node);
        self
    }

    /// Gives a name static edges to all of `to`. They replace the static edges
    /// that it had.
    pub fn add_edge(&mut self, from: &str, to: NameSet) -> (builder: &mut Self)
        requires
            old(self).wf(),
            to.wf(),
        ensures
            builder.wf(),
            builder@ == old(self)@.with_edges(from@, to@),
            *final(self) == *final(builder),
    {
        self.edges.insert(from.to_string(), to);
        assert(edges_view(self.edges@) =~= old(self)@.edges.insert(from@, to@));
        self
    }

    /// Gives a name conditional edges: a run goes from it to what each of the
    /// routers returns. They replace the conditional edges that it had.
    pub fn add_conditional_edge(&mut self, from: &str, routers: Vec<R>) -> (builder: &mut Self)
        requires
            old(self).wf(),
        ensures
            builder.wf(),
            builder@ == old(self)@.with_routers(from@, routers@),
            *final(self) == *final(builder),
    {
        self.conditional_edges.insert(from.to_string(), routers);
        assert(routers_view(self.conditional_edges@) =~= old(self)@.routers.insert(
            from@,
            routers@,
        ));
        self
    }

    /// Makes a name, and no other, the one that a run starts from.
    pub fn set_start_node(&mut self, start_node: &str) -> (builder: &mut Self)
        requires
            old(self).wf(),
        ensures
            builder.wf(),
            builder@ == (GraphView { start: set![start_node@], ..old(self)@ }),
            *final(self) == *final(builder),
    {
        let mut start_nodes = NameSet::new();
        start_nodes.insert(start_node.to_string());
        self.start_nodes = start_nodes;
        assert(self.start_nodes@ =~= set![start_node@]);
        self
    }

    /// Makes a name one of those that a run starts from.
    pub fn add_start_node(&mut self, start_node: &str) -> (builder: &mut Self)
        requires
            old(self).wf(),
        ensures
            builder.wf(),
            builder@ == (GraphView { start: old(self)@.start.insert(start_node@), ..old(self)@ }),
            *final(self) == *final(builder),
    {
        self.start_nodes.insert(start_node.to_string());
        self
    }

    /// Sets the name that ends a run.
    pub fn set_end_node(&mut self, end_node: &str) -> (builder: &mut Self)
        requires
            old(self).wf(),
        ensures
            builder.wf(),
            builder@ == (GraphView { end: end_node@, ..old(self)@ }),
            *final(self) == *final(builder),
    {
        self.end_node = end_node.to_string();
        self
    }

    /// Checks the graph and makes it one that can run. A graph that breaks a
    /// rule is rejected with an error that names the first rule it breaks.
    pub fn compile(self) -> (result: Result<StateGraph<N, R>, LangGraphError>)
        requires
            self.wf(),
        ensures
            result is Ok <==> self@.valid(),
            match result {
                Ok(graph) => graph.wf() && graph@ == self@,
                Err(error) => self@.rejected_with(error@),
            },
    {
        let validator = GraphValidator {
            max_steps: self.max_steps,
            nodes: self.nodes,
            edges: self.edges,
            conditional_edges: self.conditional_edges,
            start_nodes: self.start_nodes,
            end_node: self.end_node,
        };
        let validated = validator.validate()?;
        Ok(
            StateGraph::new(
                validated.max_steps,
                validated.nodes,
                validated.edges,
                validated.conditional_edges,
                validated.start_nodes,
                validated.end_node,
            ),
        )
    }
}

/// What is added under a name again replaces what was added before.
pub proof fn later_definitions_win<N, R>(
    graph: GraphView<N, R>,
    name: Name,
    nodes: (N, N),
    targets: (Set<Name>, Set<Name>),
    routers: (Seq<R>, Seq<R>),
)
    ensures
        graph.with_node(name, nodes.0).with_node(name, nodes.1) == graph.with_node(name, nodes.1),
        graph.with_edges(name, targets.0).with_edges(name, targets.1) == graph.with_edges(
            name,
            targets.1,
        ),
        graph.with_routers(name, routers.0).with_routers(name, routers.1) == graph.with_routers(
            name,
            routers.1,
        ),
{
    assert(graph.with_node(name, nodes.0).with_node(name, nodes.1) =~= graph.with_node(
        name,
        nodes.1,
    ));
    assert(graph.with_edges(name, targets.0).with_edges(name, targets.1) =~= graph.with_edges(
        name,
        targets.1,
    ));
    assert(graph.with_routers(name, routers.0).with_routers(name, routers.1)
        =~= graph.with_routers(name, routers.1));
}

/// What is added under different names, or as different things, can be added in
/// any order.
pub proof fn definitions_come_in_any_order<N, R>(
    graph: GraphView<N, R>,
    names: (Name, Name),
    nodes: (N, N),
    targets: (Set<Name>, Set<Name>),
    routers: (Seq<R>, Seq<R>),
)
    ensures
        graph.with_node(names.0, nodes.0).with_edges(names.1, targets.1) == graph.with_edges(
            names.1,
            targets.1,
        ).with_node(names.0, nodes.0),
        graph.with_node(names.0, nodes.0).with_routers(names.1, routers.1) == graph.with_routers(
            names.1,
            routers.1,
        ).with_node(names.0, nodes.0),
        graph.with_edges(names.0, targets.0).with_routers(names.1, routers.1)
            == graph.with_routers(names.1, routers.1).with_edges(names.0, targets.0),
        names.0 != names.1 ==> {
            &&& graph.with_node(names.0, nodes.0).with_node(names.1, nodes.1) == graph.with_node(
                names.1,
                nodes.1,
            ).with_node(names.0, nodes.0)
            &&& graph.with_edges(names.0, targets.0).with_edges(names.1, targets.1)
                == graph.with_edges(names.1, targets.1).with_edges(names.0, targets.0)
            &&& graph.with_routers(names.0, routers.0).with_routers(names.1, routers.1)
                == graph.with_routers(names.1, routers.1).with_routers(names.0, routers.0)
        },
{
    if names.0 != names.1 {
        assert(graph.with_node(names.0, nodes.0).with_node(names.1, nodes.1) =~= graph.with_node(
            names.1,
            nodes.1,
        ).with_node(names.0, nodes.0));
        assert(graph.with_edges(names.0, targets.0).with_edges(names.1, targets.1)
            =~= graph.with_edges(names.1, targets.1).with_edges(names.0, targets.0));
        assert(graph.with_routers(names.0, routers.0).with_routers(names.1, routers.1)
            =~= graph.with_routers(names.1, routers.1).with_routers(names.0, routers.0));
    }
}

/// A new graph has no nodes and no edges. Its one start name is the start marker,
/// its end is the end marker, and its steps are not limited.
pub proof fn a_new_graph_is_bare<N, R>()
    ensures
        ({
            let graph = empty_graph::<N, R>();
            &&& forall|name: Name| !#[trigger] graph.nodes.dom().contains(name)
            &&& forall|name: Name| !#[trigger] graph.edges.dom().contains(name)
            &&& forall|name: Name| !#[trigger] graph.routers.dom().contains(name)
            &&& forall|name: Name| #[trigger] graph.start.contains(name) <==> name == "__start__"@
            &&& graph.end == "__end__"@
            &&& graph.max_steps == usize::MAX
        }),
{
}

/// A definition changes what it is about, under its own name, and nothing else.
pub proof fn definitions_add_what_they_say<N, R>(
    graph: GraphView<N, R>,
    name: Name,
    node: N,
    targets: Set<Name>,
    routers: Seq<R>,
)
    ensures
        ({
            let after = graph.with_node(name, node);
            &&& after.nodes.dom().contains(name) && after.nodes[name] == node
            &&& forall|other: Name|
                other != name ==> (#[trigger] after.nodes.dom().contains(other)
                    <==> graph.nodes.dom().contains(other)) && after.nodes[other]
                    == graph.nodes[other]
            &&& after.edges == graph.edges
            &&& after.routers == graph.routers
            &&& after.start == graph.start
            &&& after.end == graph.end
            &&& after.max_steps == graph.max_steps
        }),
        ({
            let after = graph.with_edges(name, targets);
            &&& after.edges.dom().contains(name) && after.edges[name] == targets
            &&& forall|other: Name|
                other != name ==> (#[trigger] after.edges.dom().contains(other)
                    <==> graph.edges.dom().contains(other)) && after.edges[other]
                    == graph.edges[other]
            &&& after.nodes == graph.nodes
            &&& after.routers == graph.routers
            &&& after.start == graph.start
            &&& after.end == graph.end
            &&& after.max_steps == graph.max_steps
        }),
        ({
            let after = graph.with_routers(name, routers);
            &&& after.routers.dom().contains(name) && after.routers[name] == routers
            &&& forall|other: Name|
                other != name ==> (#[trigger] after.routers.dom().contains(other)
                    <==> graph.routers.dom().contains(other)) && after.routers[other]
                    == graph.routers[other]
            &&& after.nodes == graph.nodes
            &&& after.edges == graph.edges
            &&& after.start == graph.start
            &&& after.end == graph.end
            &&& after.max_steps == graph.max_steps
        }),
{
}

} // verus!

//! The structural rules of workflow graphs.
//!
//! A definition becomes a graph that can run only if it keeps every rule:
//!
//! - the step budget is not zero;
//! - there is a start name, start and end names are not empty, and no start
//!   name is the end name;
//! - there is a node, and no node has an empty name;
//! - the virtual start marker is not a node, and every start name has edges;
//! - static edges lead from and to nodes, start names or the end;
//! - conditional edges lead from nodes or start names;
//! - static edges do not lead in a circle unless the steps are limited;
//! - no name has edges of both kinds.
//!
//! What routers return is only known when a graph runs, so no rule speaks of
//! it.

use vstd::prelude::*;
use vstd::seq_lib::seq_to_set_is_finite;
use vstd::set_lib::{lemma_len_subset, lemma_subset_equality};

use crate::cycles::{
    lemma_layered_push, lemma_layers_hold_no_cycle, lemma_stuck_names_hold_a_cycle,
};
use crate::error::{quoted, quoted_text, ErrorView, LangGraphError};
use crate::model::{edges_view, edges_wf, routers_view, GraphView};
use crate::names::{Name, NameMap, NameSet};
use crate::state_graph_builder::START_NODE;

verus! {

impl<N, R> GraphView<N, R> {
    pub open spec fn budget_rule(self) -> bool {
        self.max_steps > 0
    }

    pub open spec fn start_set_rule(self) -> bool {
        self.start != Set::<Name>::empty()
    }

    pub open spec fn start_names_rule(self) -> bool {
        forall|start: Name| #[trigger] self.start.contains(start) ==> start.len() > 0
    }

    pub open spec fn end_name_rule(self) -> bool {
        self.end.len() > 0
    }

    pub open spec fn some_node_rule(self) -> bool {
        self.nodes.dom() != Set::<Name>::empty()
    }

    pub open spec fn node_names_rule(self) -> bool {
        forall|name: Name| #[trigger] self.registered(name) ==> name.len() > 0
    }

    pub open spec fn start_not_end_rule(self) -> bool {
        !self.start.contains(self.end)
    }

    pub open spec fn start_marker_rule(self) -> bool {
        !(self.start.contains(START_NODE@) && self.registered(START_NODE@))
    }

    pub open spec fn start_edges_rule(self) -> bool {
        forall|start: Name| #[trigger] self.start.contains(start) ==> self.has_edges(start)
    }

    /// Whether static edges may lead from or to this name.
    pub open spec fn endpoint(self, name: Name) -> bool {
        self.start.contains(name) || name == self.end || self.registered(name)
    }

    /// Whether `target` is one of the fixed targets of `from`.
    pub open spec fn static_edge(self, from: Name, target: Name) -> bool {
        self.edges.dom().contains(from) && self.edges[from].contains(target)
    }

    pub open spec fn static_edges_rule(self) -> bool {
        &&& forall|from: Name| #[trigger] self.edges.dom().contains(from) ==> self.endpoint(from)
        &&& forall|from: Name, target: Name| #[trigger]
            self.static_edge(from, target) ==> self.endpoint(target)
    }

    /// Whether conditional edges may lead from this name.
    pub open spec fn branching_point(self, name: Name) -> bool {
        self.start.contains(name) || self.registered(name)
    }

    pub open spec fn conditional_edges_rule(self) -> bool {
        forall|from: Name| #[trigger]
            self.routers.dom().contains(from) ==> self.branching_point(from)
    }

    /// Whether `way` follows static edges back to where it starts.
    pub open spec fn static_cycle(self, way: Seq<Name>) -> bool {
        &&& way.len() > 1
        &&& way[0] == way[way.len() - 1]
        &&& forall|i: int|
            0 <= i < way.len() - 1 ==> self.static_edge(#[trigger] way[i], way[i + 1])
    }

    pub open spec fn cycle_rule(self) -> bool {
        self.max_steps == usize::MAX ==> !exists|way: Seq<Name>| #[trigger]
            self.static_cycle(way)
    }

    pub open spec fn one_edge_kind_rule(self) -> bool {
        forall|from: Name| #[trigger]
            self.edges.dom().contains(from) ==> !self.routers.dom().contains(from)
    }

    /// Whether the graph keeps every rule.
    pub open spec fn valid(self) -> bool {
        &&& self.budget_rule()
        &&& self.start_set_rule()
        &&& self.start_names_rule()
        &&& self.end_name_rule()
        &&& self.some_node_rule()
        &&& self.node_names_rule()
        &&& self.start_not_end_rule()
        &&& self.start_marker_rule()
        &&& self.start_edges_rule()
        &&& self.static_edges_rule()
        &&& self.conditional_edges_rule()
        &&& self.cycle_rule()
        &&& self.one_edge_kind_rule()
    }

    /// Whether `error` says that some start name has no edges.
    pub open spec fn blames_start_edges(self, error: ErrorView) -> bool {
        exists|start: Name|
            {
                &&& #[trigger] self.start.contains(start)
                &&& !self.has_edges(start)
                &&& error == ErrorView::GraphError(start_edges_text(start))
            }
    }

    /// Whether `error` says that some static edge leads from or to a name that
    /// it may not.
    pub open spec fn blames_static_edges(self, error: ErrorView) -> bool {
        ||| exists|from: Name|
            {
                &&& #[trigger] self.edges.dom().contains(from)
                &&& !self.endpoint(from)
                &&& error == ErrorView::GraphError(static_source_text(from))
            }
        ||| exists|from: Name, target: Name|
            {
                &&& #[trigger] self.static_edge(from, target)
                &&& self.endpoint(from)
                &&& !self.endpoint(target)
                &&& error == ErrorView::GraphError(static_target_text(target, from))
            }
    }

    /// Whether `error` says that some conditional edge leads from a name that
    /// it may not.
    pub open spec fn blames_conditional_edges(self, error: ErrorView) -> bool {
        exists|from: Name|
            {
                &&& #[trigger] self.routers.dom().contains(from)
                &&& !self.branching_point(from)
                &&& error == ErrorView::GraphError(conditional_source_text(from))
            }
    }

    /// Whether `error` says that some name has edges of both kinds.
    pub open spec fn blames_edge_kinds(self, error: ErrorView) -> bool {
        exists|from: Name|
            {
                &&& #[trigger] self.edges.dom().contains(from)
                &&& self.routers.dom().contains(from)
                &&& error == ErrorView::GraphError(edge_kinds_text(from))
            }
    }

    /// Whether `error` reports the first rule that the graph breaks. Where
    /// several names break it, it names one of them.
    pub open spec fn rejected_with(self, error: ErrorView) -> bool {
        if !self.budget_rule() {
            error == ErrorView::GraphError("max_steps must be greater than 0"@)
        } else if !self.start_set_rule() {
            error == ErrorView::GraphError("Start node set cannot be empty"@)
        } else if !self.start_names_rule() {
            error == ErrorView::GraphError("Start node cannot be empty"@)
        } else if !self.end_name_rule() {
            error == ErrorView::GraphError("End node cannot be empty"@)
        } else if !self.some_node_rule() {
            error == ErrorView::GraphError("Graph must contain at least one node"@)
        } else if !self.node_names_rule() {
            error == ErrorView::GraphError("Node name cannot be empty"@)
        } else if !self.start_not_end_rule() {
            error == ErrorView::GraphError("Start node and end node cannot be the same"@)
        } else if !self.start_marker_rule() {
            error == ErrorView::GraphError(start_marker_text(START_NODE@))
        } else if !self.start_edges_rule() {
            self.blames_start_edges(error)
        } else if !self.static_edges_rule() {
            self.blames_static_edges(error)
        } else if !self.conditional_edges_rule() {
            self.blames_conditional_edges(error)
        } else if !self.cycle_rule() {
            error == ErrorView::GraphError(cycle_text())
        } else {
            !self.one_edge_kind_rule() && self.blames_edge_kinds(error)
        }
    }
}

pub open spec fn start_marker_text(start: Name) -> Seq<char> {
    quoted_text("Start node '"@, start, "' cannot be a normal node"@)
}

pub open spec fn start_edges_text(start: Name) -> Seq<char> {
    quoted_text("Start node '"@, start, "' must have at least one outgoing edge"@)
}

pub open spec fn static_source_text(from: Name) -> Seq<char> {
    quoted_text("Static edge source '"@, from, "' is not a registered node"@)
}

pub open spec fn static_target_text(target: Name, from: Name) -> Seq<char> {
    quoted_text(
        quoted_text("Static edge target '"@, target, "' (from '"@),
        from,
        "') is not a registered node"@,
    )
}

pub open spec fn conditional_source_text(from: Name) -> Seq<char> {
    quoted_text("Conditional edge source '"@, from, "' is not a registered node"@)
}

pub open spec fn cycle_text() -> Seq<char> {
    "Graph contains a cycle of static edges; max_steps must be set"@
}

pub open spec fn edge_kinds_text(from: Name) -> Seq<char> {
    quoted_text("Node '"@, from, "' cannot have both static edges and conditional edges"@)
}

/// A graph definition that keeps every rule.
pub struct ValidatedGraph<N, R> {
    pub max_steps: usize,
    pub nodes: NameMap<N>,
    pub edges: NameMap<NameSet>,
    pub conditional_edges: NameMap<Vec<R>>,
    pub start_nodes: NameSet,
    pub end_node: String,
}

impl<N, R> View for ValidatedGraph<N, R> {
    type V = GraphView<N, R>;

    open spec fn view(&self) -> GraphView<N, R> {
        GraphView {
            nodes: self.nodes@,
            edges: edges_view(self.edges@),
            routers: routers_view(self.conditional_edges@),
            start: self.start_nodes@,
            end: self.end_node@,
            max_steps: self.max_steps as nat,
        }
    }
}

impl<N, R> ValidatedGraph<N, R> {
    /// The collections are valid.
    pub open spec fn wf(&self) -> bool {
        &&& self.nodes.wf()
        &&& edges_wf(&self.edges)
        &&& self.conditional_edges.wf()
        &&& self.start_nodes.wf()
    }
}

/// A graph definition that has yet to be held against the rules.
pub struct GraphValidator<N, R> {
    pub max_steps: usize,
    pub nodes: NameMap<N>,
    pub edges: NameMap<NameSet>,
    pub conditional_edges: NameMap<Vec<R>>,
    pub start_nodes: NameSet,
    pub end_node: String,
}

impl<N, R> View for GraphValidator<N, R> {
    type V = GraphView<N, R>;

    open spec fn view(&self) -> GraphView<N, R> {
        GraphView {
            nodes: self.nodes@,
            edges: edges_view(self.edges@),
            routers: routers_view(self.conditional_edges@),
            start: self.start_nodes@,
            end: self.end_node@,
            max_steps: self.max_steps as nat,
        }
    }
}

impl<N, R> GraphValidator<N, R> {
    /// The collections are valid.
    pub open spec fn wf(&self) -> bool {
        &&& self.nodes.wf()
        &&& edges_wf(&self.edges)
        &&& self.conditional_edges.wf()
        &&& self.start_nodes.wf()
    }

    /// Holds the definition against every rule. Gives the definition back if
    /// it keeps them all, and else reports the first that it breaks.
    pub fn validate(self) -> (result: Result<ValidatedGraph<N, R>, LangGraphError>)
        requires
            self.wf(),
        ensures
            result is Ok <==> self@.valid(),
            match result {
                Ok(graph) => graph.wf() && graph@ == self@,
                Err(error) => self@.rejected_with(error@),
            },
    {
        self.validate_max_steps()?;
        self.validate_start_end_nodes()?;
        self.validate_nodes_exist()?;
        self.validate_node_names_not_empty()?;
        self.validate_start_end_different()?;
        self.validate_start_not_registered()?;
        self.validate_start_has_outgoing_edges()?;
        self.validate_static_edges_valid()?;
        self.validate_conditional_edges_valid()?;
        self.validate_cycles_limited()?;
        self.validate_no_mixed_edge_types()?;
        Ok(
            ValidatedGraph {
                max_steps: self.max_steps,
                nodes: self.nodes,
                edges: self.edges,
                conditional_edges: self.conditional_edges,
                start_nodes: self.start_nodes,
                end_node: self.end_node,
            },
        )
    }

    fn validate_max_steps(&self) -> (result: Result<(), LangGraphError>)
        ensures
            result is Ok <==> self@.budget_rule(),
            result matches Err(error) ==> error@ == ErrorView::GraphError(
                "max_steps must be greater than 0"@,
            ),
    {
        if self.max_steps == 0 {
            return Err(
                LangGraphError::GraphError("max_steps must be greater than 0".to_string()),
            );
        }
        Ok(())
    }

    fn validate_start_end_nodes(&self) -> (result: Result<(), LangGraphError>)
        ensures
            result is Ok <==> self@.start_set_rule() && self@.start_names_rule()
                && self@.end_name_rule(),
            result matches Err(error) ==> error@ == ErrorView::GraphError(
                if !self@.start_set_rule() {
                    "Start node set cannot be empty"@
                } else if !self@.start_names_rule() {
                    "Start node cannot be empty"@
                } else {
                    "End node cannot be empty"@
                },
            ),
    {
        if self.start_nodes.is_empty() {
            return Err(LangGraphError::GraphError("Start node set cannot be empty".to_string()));
        }
        let mut i: usize = 0;
        while i < self.start_nodes.len()
            invariant
                i <= self.start_nodes.order().len(),
                self@.start_set_rule(),
                forall|j: int| 0 <= j < i ==> self.start_nodes.order()[j].len() > 0,
            decreases self.start_nodes.order().len() - i,
        {
            if self.start_nodes.at(i).as_str().is_empty() {
                assert(!self@.start_names_rule()) by {
                    assert(self@.start.contains(self.start_nodes.order()[i as int]));
                }
                return Err(LangGraphError::GraphError("Start node cannot be empty".to_string()));
            }
            i += 1;
        }
        assert(self@.start_names_rule());
        if self.end_node.as_str().is_empty() {
            return Err(LangGraphError::GraphError("End node cannot be empty".to_string()));
        }
        Ok(())
    }

    fn validate_nodes_exist(&self) -> (result: Result<(), LangGraphError>)
        ensures
            result is Ok <==> self@.some_node_rule(),
            result matches Err(error) ==> error@ == ErrorView::GraphError(
                "Graph must contain at least one node"@,
            ),
    {
        if self.nodes.is_empty() {
            return Err(
                LangGraphError::GraphError("Graph must contain at least one node".to_string()),
            );
        }
        Ok(())
    }

    fn validate_node_names_not_empty(&self) -> (result: Result<(), LangGraphError>)
        ensures
            result is Ok <==> self@.node_names_rule(),
            result matches Err(error) ==> error@ == ErrorView::GraphError(
                "Node name cannot be empty"@,
            ),
    {
        proof {
            self.nodes.lemma_order();
        }
        let mut i: usize = 0;
        while i < self.nodes.len()
            invariant
                i <= self.nodes.order().len(),
                forall|name: Name| #[trigger]
                    self.nodes@.dom().contains(name) <==> self.nodes.order().contains(name),
                forall|j: int| 0 <= j < i ==> self.nodes.order()[j].len() > 0,
            decreases self.nodes.order().len() - i,
        {
            if self.nodes.name_at(i).as_str().is_empty() {
                assert(self@.registered(self.nodes.order()[i as int]));
                return Err(LangGraphError::GraphError("Node name cannot be empty".to_string()));
            }
            i += 1;
        }
        Ok(())
    }

    fn validate_start_end_different(&self) -> (result: Result<(), LangGraphError>)
        ensures
            result is Ok <==> self@.start_not_end_rule(),
            result matches Err(error) ==> error@ == ErrorView::GraphError(
                "Start node and end node cannot be the same"@,
            ),
    {
        if self.start_nodes.contains(&self.end_node) {
            return Err(
                LangGraphError::GraphError(
                    "Start node and end node cannot be the same".to_string(),
                ),
            );
        }
        Ok(())
    }

    fn validate_start_not_registered(&self) -> (result: Result<(), LangGraphError>)
        ensures
            result is Ok <==> self@.start_marker_rule(),
            result matches Err(error) ==> error@ == ErrorView::GraphError(
                start_marker_text(START_NODE@),
            ),
    {
        let marker = START_NODE.to_string();
        if self.start_nodes.contains(&marker) && self.nodes.contains_key(&marker) {
            return Err(
                LangGraphError::GraphError(
                    quoted("Start node '", marker.as_str(), "' cannot be a normal node"),
                ),
            );
        }
        Ok(())
    }

    fn validate_start_has_outgoing_edges(&self) -> (result: Result<(), LangGraphError>)
        ensures
            result is Ok <==> self@.start_edges_rule(),
            result matches Err(error) ==> self@.blames_start_edges(error@),
    {
        let mut i: usize = 0;
        while i < self.start_nodes.len()
            invariant
                i <= self.start_nodes.order().len(),
                forall|j: int|
                    0 <= j < i ==> self@.has_edges(#[trigger] self.start_nodes.order()[j]),
            decreases self.start_nodes.order().len() - i,
        {
            let start = self.start_nodes.at(i);
            if !self.edges.contains_key(start) && !self.conditional_edges.contains_key(start) {
                assert(self@.start.contains(start@) && !self@.has_edges(start@));
                return Err(
                    LangGraphError::GraphError(
                        quoted(
                            "Start node '",
                            start.as_str(),
                            "' must have at least one outgoing edge",
                        ),
                    ),
                );
            }
            i += 1;
        }
        Ok(())
    }

    /// Whether static edges may lead from or to a name.
    fn is_endpoint(&self, name: &String) -> (yes: bool)
        ensures
            yes == self@.endpoint(name@),
    {
        self.start_nodes.contains(name) || *name == self.end_node || self.nodes.contains_key(name)
    }

    fn validate_static_edges_valid(&self) -> (result: Result<(), LangGraphError>)
        requires
            edges_wf(&self.edges),
        ensures
            result is Ok <==> self@.static_edges_rule(),
            result matches Err(error) ==> self@.blames_static_edges(error@),
    {
        proof {
            self.edges.lemma_order();
        }
        let mut i: usize = 0;
        while i < self.edges.len()
            invariant
                edges_wf(&self.edges),
                i <= self.edges.order().len(),
                forall|name: Name| #[trigger]
                    self.edges@.dom().contains(name) <==> self.edges.order().contains(name),
                forall|j: int|
                    0 <= j < i ==> self@.endpoint(#[trigger] self.edges.order()[j]),
                forall|j: int, target: Name|
                    0 <= j < i && #[trigger] self@.static_edge(self.edges.order()[j], target)
                        ==> self@.endpoint(target),
            decreases self.edges.order().len() - i,
        {
            let from = self.edges.name_at(i);
            let targets = self.edges.value_at(i);
            assert(self@.edges.dom().contains(from@) && self@.edges[from@] == targets@);
            if !self.is_endpoint(from) {
                return Err(
                    LangGraphError::GraphError(
                        quoted(
                            "Static edge source '",
                            from.as_str(),
                            "' is not a registered node",
                        ),
                    ),
                );
            }
            let mut k: usize = 0;
            while k < targets.len()
                invariant
                    targets.wf(),
                    k <= targets.order().len(),
                    self@.edges.dom().contains(from@),
                    self@.edges[from@] == targets@,
                    self@.endpoint(from@),
                    forall|j: int|
                        0 <= j < k ==> self@.endpoint(#[trigger] targets.order()[j]),
                decreases targets.order().len() - k,
            {
                let target = targets.at(k);
                if !self.is_endpoint(target) {
                    let text = quoted("Static edge target '", target.as_str(), "' (from '");
                    assert(self@.static_edge(from@, target@));
                    return Err(
                        LangGraphError::GraphError(
                            quoted(text.as_str(), from.as_str(), "') is not a registered node"),
                        ),
                    );
                }
                k += 1;
            }
            assert(forall|target: Name| #[trigger]
                self@.static_edge(from@, target) ==> self@.endpoint(target));
            i += 1;
        }
        proof {
            assert forall|from: Name, target: Name| #[trigger]
                self@.static_edge(from, target) implies self@.endpoint(target) by {
                let j = self.edges.order().index_of(from);
                assert(self@.static_edge(self.edges.order()[j], target));
            }
        }
        Ok(())
    }

    fn validate_conditional_edges_valid(&self) -> (result: Result<(), LangGraphError>)
        ensures
            result is Ok <==> self@.conditional_edges_rule(),
            result matches Err(error) ==> self@.blames_conditional_edges(error@),
    {
        proof {
            self.conditional_edges.lemma_order();
        }
        let mut i: usize = 0;
        while i < self.conditional_edges.len()
            invariant
                i <= self.conditional_edges.order().len(),
                forall|name: Name| #[trigger]
                    self.conditional_edges@.dom().contains(name)
                        <==> self.conditional_edges.order().contains(name),
                forall|j: int|
                    0 <= j < i ==> self@.branching_point(
                        #[trigger] self.conditional_edges.order()[j],
                    ),
            decreases self.conditional_edges.order().len() - i,
        {
            let from = self.conditional_edges.name_at(i);
            if !self.start_nodes.contains(from) && !self.nodes.contains_key(from) {
                assert(self@.routers.dom().contains(from@) && !self@.branching_point(from@));
                return Err(
                    LangGraphError::GraphError(
                        quoted(
                            "Conditional edge source '",
                            from.as_str(),
                            "' is not a registered node",
                        ),
                    ),
                );
            }
            i += 1;
        }
        Ok(())
    }

    fn validate_cycles_limited(&self) -> (result: Result<(), LangGraphError>)
        requires
            self.wf(),
        ensures
            result is Ok <==> self@.cycle_rule(),
            result matches Err(error) ==> error@ == ErrorView::GraphError(cycle_text()),
    {
        if self.max_steps == usize::MAX && self.has_static_cycle() {
            let msg = "Graph contains a cycle of static edges; max_steps must be set";
            return Err(LangGraphError::GraphError(msg.to_string()));
        }
        Ok(())
    }

    /// Whether static edges lead in a circle. Names are cleared, pass by pass,
    /// once all their targets are: on a circle none ever is.
    fn has_static_cycle(&self) -> (cyclic: bool)
        requires
            self.wf(),
        ensures
            cyclic == exists|way: Seq<Name>| #[trigger] self@.static_cycle(way),
    {
        let mut cleared = NameSet::new();
        let ghost sources = self@.edges.dom();
        proof {
            self.edges.lemma_order();
            self.edges.order().unique_seq_to_set();
            seq_to_set_is_finite(self.edges.order());
            assert(sources =~= self.edges.order().to_set());
        }
        loop
            invariant
                self.wf(),
                cleared.wf(),
                sources == self@.edges.dom(),
                sources == self.edges@.dom(),
                sources == self.edges.order().to_set(),
                sources.finite(),
                cleared@.subset_of(sources),
                self@.layered(cleared.order()),
            decreases sources.len() - cleared@.len(),
        {
            let ghost before = cleared@;
            let mut progress = false;
            let mut i: usize = 0;
            while i < self.edges.len()
                invariant
                    self.wf(),
                    cleared.wf(),
                    sources == self@.edges.dom(),
                    sources == self.edges@.dom(),
                    sources.finite(),
                    i <= self.edges.order().len(),
                    cleared@.subset_of(sources),
                    before.subset_of(cleared@),
                    self@.layered(cleared.order()),
                    progress ==> before.len() < cleared@.len(),
                    !progress ==> cleared@ == before && forall|k: int|
                        0 <= k < i ==> before.contains(#[trigger] self.edges.order()[k])
                            || !self@.leads_into(self.edges.order()[k], before),
                decreases self.edges.order().len() - i,
            {
                let name = self.edges.name_at(i);
                if !cleared.contains(name) && self.is_cleared(name, &cleared) {
                    proof {
                        lemma_layered_push(self@, cleared.order(), name@);
                        lemma_len_subset(before, cleared@);
                        lemma_len_subset(cleared@, sources);
                    }
                    cleared.insert(name.clone());
                    progress = true;
                }
                i += 1;
            }
            proof {
                lemma_len_subset(cleared@, sources);
            }
            if !progress {
                if cleared.len() == self.edges.len() {
                    proof {
                        self.edges.order().unique_seq_to_set();
                        lemma_subset_equality(cleared@, sources);
                        assert forall|way: Seq<Name>| !#[trigger] self@.static_cycle(way) by {
                            lemma_layers_hold_no_cycle(self@, cleared.order(), way);
                        }
                    }
                    return false;
                }
                proof {
                    self.edges.order().unique_seq_to_set();
                    lemma_stuck_names_hold_a_cycle(self@, cleared@);
                }
                return true;
            }
        }
    }

    /// Whether all targets of a name are cleared or lead nowhere.
    fn is_cleared(&self, name: &String, cleared: &NameSet) -> (clear: bool)
        requires
            self.wf(),
        ensures
            clear == self@.leads_into(name@, cleared@),
    {
        if let Some(targets) = self.edges.get(name) {
            assert(self@.edges[name@] == targets@);
            let mut i: usize = 0;
            while i < targets.len()
                invariant
                    i <= targets.order().len(),
                    self@.edges.dom() == self.edges@.dom(),
                    self@.edges.dom().contains(name@),
                    self@.edges[name@] == targets@,
                    forall|k: int|
                        0 <= k < i && self@.edges.dom().contains(#[trigger] targets.order()[k])
                            ==> cleared@.contains(targets.order()[k]),
                decreases targets.order().len() - i,
            {
                let target = targets.at(i);
                if self.edges.contains_key(target) && !cleared.contains(target) {
                    assert(self@.static_edge(name@, target@));
                    return false;
                }
                i += 1;
            }
        }
        true
    }

    fn validate_no_mixed_edge_types(&self) -> (result: Result<(), LangGraphError>)
        ensures
            result is Ok <==> self@.one_edge_kind_rule(),
            result matches Err(error) ==> self@.blames_edge_kinds(error@),
    {
        proof {
            self.edges.lemma_order();
        }
        let mut i: usize = 0;
        while i < self.edges.len()
            invariant
                i <= self.edges.order().len(),
                forall|name: Name| #[trigger]
                    self.edges@.dom().contains(name) <==> self.edges.order().contains(name),
                forall|j: int|
                    0 <= j < i ==> !self@.routers.dom().contains(
                        #[trigger] self.edges.order()[j],
                    ),
            decreases self.edges.order().len() - i,
        {
            let from = self.edges.name_at(i);
            if self.conditional_edges.contains_key(from) {
                assert(self@.edges.dom().contains(from@) && self@.routers.dom().contains(from@));
                return Err(
                    LangGraphError::GraphError(
                        quoted(
                            "Node '",
                            from.as_str(),
                            "' cannot have both static edges and conditional edges",
                        ),
                    ),
                );
            }
            i += 1;
        }
        Ok(())
    }
}

/// A graph is either valid or rejected, and what rejects it is an error of the
/// graph.
pub proof fn valid_or_rejected<N, R>(graph: GraphView<N, R>)
    ensures
        graph.valid() <==> forall|error: ErrorView| !#[trigger] graph.rejected_with(error),
        forall|error: ErrorView| #[trigger]
            graph.rejected_with(error) ==> error is GraphError,
{
    if !graph.valid() {
        let error = if !graph.budget_rule() {
            ErrorView::GraphError("max_steps must be greater than 0"@)
        } else if !graph.start_set_rule() {
            ErrorView::GraphError("Start node set cannot be empty"@)
        } else if !graph.start_names_rule() {
            ErrorView::GraphError("Start node cannot be empty"@)
        } else if !graph.end_name_rule() {
            ErrorView::GraphError("End node cannot be empty"@)
        } else if !graph.some_node_rule() {
            ErrorView::GraphError("Graph must contain at least one node"@)
        } else if !graph.node_names_rule() {
            ErrorView::GraphError("Node name cannot be empty"@)
        } else if !graph.start_not_end_rule() {
            ErrorView::GraphError("Start node and end node cannot be the same"@)
        } else if !graph.start_marker_rule() {
            ErrorView::GraphError(start_marker_text(START_NODE@))
        } else if !graph.start_edges_rule() {
            let start = choose|start: Name| #[trigger]
                graph.start.contains(start) && !graph.has_edges(start);
            ErrorView::GraphError(start_edges_text(start))
        } else if !graph.static_edges_rule() {
            if exists|from: Name| #[trigger]
                graph.edges.dom().contains(from) && !graph.endpoint(from) {
                let from = choose|from: Name| #[trigger]
                    graph.edges.dom().contains(from) && !graph.endpoint(from);
                ErrorView::GraphError(static_source_text(from))
            } else {
                let (from, target) = choose|from: Name, target: Name| #[trigger]
                    graph.static_edge(from, target) && !graph.endpoint(target);
                ErrorView::GraphError(static_target_text(target, from))
            }
        } else if !graph.conditional_edges_rule() {
            let from = choose|from: Name| #[trigger]
                graph.routers.dom().contains(from) && !graph.branching_point(from);
            ErrorView::GraphError(conditional_source_text(from))
        } else if !graph.cycle_rule() {
            ErrorView::GraphError(cycle_text())
        } else {
            let from = choose|from: Name| #[trigger]
                graph.edges.dom().contains(from) && graph.routers.dom().contains(from);
            ErrorView::GraphError(edge_kinds_text(from))
        };
        assert(graph.rejected_with(error));
    }
}

/// No name of a valid graph has both static and conditional edges.
pub proof fn one_kind_of_edges<N, R>(graph: GraphView<N, R>, name: Name)
    requires
        graph.valid(),
    ensures
        !(graph.edges.dom().contains(name) && graph.routers.dom().contains(name)),
{
}

/// Contracts see a definition as what its parts hold.
pub proof fn definitions_are_seen_as_they_are<N, R>(
    validator: GraphValidator<N, R>,
    validated: ValidatedGraph<N, R>,
)
    ensures
        validator@.nodes == validator.nodes@,
        validator@.edges.dom() == validator.edges@.dom(),
        forall|from: Name| #[trigger]
            validator.edges@.dom().contains(from) ==> validator@.edges[from]
                == validator.edges@[from]@,
        validator@.routers.dom() == validator.conditional_edges@.dom(),
        forall|from: Name| #[trigger]
            validator.conditional_edges@.dom().contains(from) ==> validator@.routers[from]
                == validator.conditional_edges@[from]@,
        validator@.start == validator.start_nodes@,
        validator@.end == validator.end_node@,
        validator@.max_steps == validator.max_steps,
        validated@.nodes == validated.nodes@,
        validated@.edges.dom() == validated.edges@.dom(),
        forall|from: Name| #[trigger]
            validated.edges@.dom().contains(from) ==> validated@.edges[from]
                == validated.edges@[from]@,
        validated@.routers.dom() == validated.conditional_edges@.dom(),
        forall|from: Name| #[trigger]
            validated.conditional_edges@.dom().contains(from) ==> validated@.routers[from]
                == validated.conditional_edges@[from]@,
        validated@.start == validated.start_nodes@,
        validated@.end == validated.end_node@,
        validated@.max_steps == validated.max_steps,
{
    assert(validator@.edges.dom() =~= validator.edges@.dom());
    assert(validator@.routers.dom() =~= validator.conditional_edges@.dom());
    assert(validated@.edges.dom() =~= validated.edges@.dom());
    assert(validated@.routers.dom() =~= validated.conditional_edges@.dom());
}

} // verus!

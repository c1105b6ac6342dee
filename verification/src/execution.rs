//! How a run moves through a graph.
//!
//! A run is a sequence of steps. A step works on a set of current names: it
//! runs the nodes among them, then follows the edges of all of them to the
//! names of the next step. This module says what a step does to the position of
//! a run, and what the two kinds of runs make of it: a batch run, which only
//! has a result, and a streamed run, which leaves a log of events.

use std::sync::Arc;

use vstd::prelude::*;

use crate::agent_node::AgentNode;
use crate::calls::{node_gives, router_gives, Entry, Routes, Runs};
use crate::error::{outcome_view, quoted_text, ErrorView, LangGraphError};
use crate::model::GraphView;
use crate::names::{Name, NameSet};
use crate::text::decimal;

verus! {

/// Where the current names of a run come from.
#[derive(Debug, Clone, Copy, PartialEq, Eq, Structural)]
pub enum Origin {
    /// They are the start names of the graph.
    Start,
    /// A step in which a node ran led to them.
    Nodes,
    /// A step in which no node ran led to them: only markers, which have edges
    /// but no node, were current.
    Markers,
    /// No name of the step before had a node or edges.
    Strays,
}

/// The position of a run.
pub struct Cursor {
    /// The current names.
    pub current: NameSet,
    /// The number of steps that were begun.
    pub step: usize,
    /// Whether the end was among the current names of some step.
    pub reached_end: bool,
    /// Where the current names come from.
    pub origin: Origin,
}

/// A [`Cursor`] as contracts see it.
#[verifier::ext_equal]
pub ghost struct Position {
    pub current: Set<Name>,
    pub step: nat,
    pub reached_end: bool,
    pub origin: Origin,
}

impl View for Cursor {
    type V = Position;

    open spec fn view(&self) -> Position {
        Position {
            current: self.current@,
            step: self.step as nat,
            reached_end: self.reached_end,
            origin: self.origin,
        }
    }
}

impl Cursor {
    /// The set of current names is valid.
    pub open spec fn wf(&self) -> bool {
        self.current.wf()
    }
}

/// What happened in one step of a run.
pub ghost struct StepRecord {
    /// The events of the nodes that ran, in the order in which they came.
    pub node_events: Seq<EventView>,
    /// The nodes that were run, in the order in which they were, and how each
    /// came out.
    pub applied: Seq<(Name, Result<(), ErrorView>)>,
    /// The routers that were asked, in the order in which they were: the name
    /// they belong to, their position among its routers, and what they returned.
    pub asked: Seq<(Name, int, Name)>,
    /// Whether the nodes that ran succeeded, and else the error that counts.
    pub outcome: Result<(), ErrorView>,
    /// What the routers of each current name with conditional edges returned.
    pub routes: Map<Name, Seq<Name>>,
}

/// An event of a streamed run as contracts see it.
pub ghost enum EventView {
    WorkflowStarted,
    StepStarted { step: nat, nodes: Set<Name> },
    NodeStarted { step: nat, name: Name },
    NodeFinished { step: nat, name: Name },
    RoutingDecision { step: nat, from_nodes: Set<Name>, to_nodes: Set<Name> },
    WorkflowFinished { total_steps: nat },
    WorkflowError { step: nat, error: ErrorView },
}

impl EventView {
    /// Whether a run ends with this event.
    pub open spec fn terminal(self) -> bool {
        self is WorkflowFinished || self is WorkflowError
    }
}

impl<N, R> GraphView<N, R> {
    /// Where a run starts.
    pub open spec fn start_position(self) -> Position {
        Position {
            current: self.start,
            step: 0,
            reached_end: false,
            origin: Origin::Start,
        }
    }

    /// Whether the step budget is used up.
    pub open spec fn exhausted(self, at: Position) -> bool {
        at.step >= self.max_steps
    }

    /// The position after a step was begun: it is counted, and the end, if it
    /// is among the current names, is noted and taken out.
    pub open spec fn entered(self, at: Position) -> Position {
        Position {
            current: at.current.remove(self.end),
            step: at.step + 1,
            reached_end: at.reached_end || at.current.contains(self.end),
            origin: at.origin,
        }
    }

    /// The names among `current` that have a node to run.
    pub open spec fn runnable(self, current: Set<Name>) -> Set<Name> {
        current.intersect(self.nodes.dom())
    }

    /// Whether `target` is where control goes from `from`: a fixed target, or
    /// what one of its routers returned.
    pub open spec fn leads_to(
        self,
        from: Name,
        routes: Map<Name, Seq<Name>>,
        target: Name,
    ) -> bool {
        ||| self.static_edge(from, target)
        ||| self.routers.dom().contains(from) && routes[from].contains(target)
    }

    /// The names that control goes to from `current`.
    pub open spec fn successors(
        self,
        current: Set<Name>,
        routes: Map<Name, Seq<Name>>,
    ) -> Set<Name> {
        Set::new(
            |target: Name|
                exists|from: Name| #[trigger]
                    current.contains(from) && self.leads_to(from, routes, target),
        )
    }

    /// Where names come from that a step on `current` leads to.
    pub open spec fn departure(self, current: Set<Name>) -> Origin {
        if exists|name: Name| #[trigger] current.contains(name) && self.registered(name) {
            Origin::Nodes
        } else if exists|name: Name| #[trigger] current.contains(name) && self.has_edges(name) {
            Origin::Markers
        } else {
            Origin::Strays
        }
    }

    /// The position after a step that was begun at `at` led to `next`.
    pub open spec fn moved(self, at: Position, next: Set<Name>) -> Position {
        Position {
            current: next,
            step: at.step,
            reached_end: at.reached_end,
            origin: self.departure(at.current),
        }
    }

    /// The position after the whole step that `record` tells of.
    pub open spec fn stepped(self, at: Position, record: StepRecord) -> Position {
        let entered = self.entered(at);
        self.moved(entered, self.successors(entered.current, record.routes))
    }

    /// Whether there is nothing left to do once a step was begun.
    pub open spec fn drained(self, at: Position) -> bool {
        self.entered(at).current == Set::<Name>::empty()
    }

    /// Whether markers led only to names that the graph does not know, and the
    /// end was not reached.
    pub open spec fn lost(self, at: Position) -> bool {
        &&& at.origin == Origin::Markers
        &&& !self.drained(at)
        &&& !self.entered(at).reached_end
        &&& forall|name: Name| #[trigger]
            self.entered(at).current.contains(name) ==> !self.known(name)
    }

    /// Whether a batch run stops at this position.
    pub open spec fn batch_stops(self, at: Position) -> bool {
        self.exhausted(at) || self.drained(at) || self.lost(at)
    }

    /// The result of a batch run that stops at this position.
    ///
    /// It succeeds if the budget is used up or nothing is left to do. It is a
    /// dead end, though, if a node or a marker leads nowhere and the end was
    /// not reached. Where markers led only to names that the graph does not
    /// know, the error is about them.
    pub open spec fn batch_end(self, at: Position) -> Result<(), ErrorView> {
        if self.exhausted(at) {
            Ok(())
        } else if self.drained(at) {
            if !self.entered(at).reached_end && (at.origin == Origin::Nodes || at.origin
                == Origin::Markers) {
                Err(ErrorView::GraphError(dead_end_text()))
            } else {
                Ok(())
            }
        } else {
            Err(ErrorView::NotFound(not_found_text(self.entered(at).current)))
        }
    }

    /// The position after the steps that `records` tells of.
    pub open spec fn position(self, records: Seq<StepRecord>) -> Position
        decreases records.len(),
    {
        if records.len() == 0 {
            self.start_position()
        } else {
            self.stepped(self.position(records.drop_last()), records.last())
        }
    }

    /// Whether a batch run takes the steps that `records` tells of and is then
    /// still on its way.
    pub open spec fn batch_going(self, records: Seq<StepRecord>) -> bool
        decreases records.len(),
    {
        records.len() > 0 ==> {
            &&& self.batch_going(records.drop_last())
            &&& !self.batch_stops(self.position(records.drop_last()))
            &&& records.last().outcome is Ok
        }
    }

    /// Whether a batch run takes the steps that `records` tells of, no more,
    /// and then has this result: that of the position where it stops, or the
    /// error of its last step.
    pub open spec fn batch_run(
        self,
        records: Seq<StepRecord>,
        result: Result<(), ErrorView>,
    ) -> bool {
        if failed(records) {
            &&& self.batch_going(records.drop_last())
            &&& !self.batch_stops(self.position(records.drop_last()))
            &&& result == records.last().outcome
        } else {
            &&& self.batch_going(records)
            &&& self.batch_stops(self.position(records))
            &&& result == self.batch_end(self.position(records))
        }
    }

    /// Whether a streamed run stops at this position.
    pub open spec fn stream_stops(self, at: Position) -> bool {
        self.exhausted(at) || self.drained(at)
    }

    /// The last position of a run that stops at `at`: it begins a step if the
    /// budget allows one, and then finds nothing that it could do.
    pub open spec fn stream_rest(self, at: Position) -> Position {
        if self.exhausted(at) {
            at
        } else {
            self.entered(at)
        }
    }

    /// The event that ends a streamed run whose last position is `last`: it
    /// succeeds if and only if it reached the end.
    pub open spec fn end_event(self, last: Position) -> EventView {
        if last.reached_end {
            EventView::WorkflowFinished { total_steps: last.step }
        } else {
            EventView::WorkflowError {
                step: last.step,
                error: ErrorView::GraphError(budget_text(self.max_steps)),
            }
        }
    }

    /// The events of the nodes of a step that was begun: its announcement and
    /// theirs, or nothing if no node runs.
    pub open spec fn run_log(self, entered: Position, node_events: Seq<EventView>) -> Seq<
        EventView,
    > {
        let nodes = self.runnable(entered.current);
        if nodes == Set::<Name>::empty() {
            Seq::<EventView>::empty()
        } else {
            seq![EventView::StepStarted { step: entered.step, nodes }] + node_events
        }
    }

    /// The events of one step: those of its nodes, then the error, or where
    /// control goes.
    pub open spec fn step_log(self, at: Position, record: StepRecord) -> Seq<EventView> {
        let entered = self.entered(at);
        self.run_log(entered, record.node_events).push(
            match record.outcome {
                Err(error) => EventView::WorkflowError { step: entered.step, error },
                Ok(_) => EventView::RoutingDecision {
                    step: entered.step,
                    from_nodes: entered.current,
                    to_nodes: self.successors(entered.current, record.routes),
                },
            },
        )
    }

    /// Whether a streamed run takes the steps that `records` tells of and is
    /// then still on its way.
    pub open spec fn stream_going(self, records: Seq<StepRecord>) -> bool
        decreases records.len(),
    {
        records.len() > 0 ==> {
            &&& self.stream_going(records.drop_last())
            &&& !self.stream_stops(self.position(records.drop_last()))
            &&& records.last().outcome is Ok
        }
    }

    /// Whether a streamed run takes the steps that `records` tells of, and no
    /// more.
    pub open spec fn stream_run(self, records: Seq<StepRecord>) -> bool {
        if failed(records) {
            &&& self.stream_going(records.drop_last())
            &&& !self.stream_stops(self.position(records.drop_last()))
        } else {
            &&& self.stream_going(records)
            &&& self.stream_stops(self.position(records))
        }
    }

    /// The events of the steps that `records` tells of.
    pub open spec fn steps_log(self, records: Seq<StepRecord>) -> Seq<EventView>
        decreases records.len(),
    {
        if records.len() == 0 {
            Seq::<EventView>::empty()
        } else {
            self.steps_log(records.drop_last()) + self.step_log(
                self.position(records.drop_last()),
                records.last(),
            )
        }
    }

    /// All events of a streamed run that takes the steps that `records` tells
    /// of: its start, those of the steps, and its end. A step that fails is an
    /// end in itself.
    pub open spec fn stream_log(self, records: Seq<StepRecord>) -> Seq<EventView> {
        let steps = seq![EventView::WorkflowStarted] + self.steps_log(records);
        if failed(records) {
            steps
        } else {
            steps.push(self.end_event(self.stream_rest(self.position(records))))
        }
    }
}

/// Whether the last of the steps failed.
pub open spec fn failed(records: Seq<StepRecord>) -> bool {
    records.len() > 0 && records.last().outcome is Err
}

pub open spec fn dead_end_text() -> Seq<char> {
    "Dead-end: no outgoing edge leads on and the end node was not reached"@
}

/// The text about names that the graph does not know. A name that is alone is
/// named.
pub open spec fn not_found_text(names: Set<Name>) -> Seq<char> {
    let name = names.choose();
    if names == set![name] {
        quoted_text("Node '"@, name, "' not found in graph"@)
    } else {
        "Target nodes not found in graph"@
    }
}

pub open spec fn budget_text(max_steps: nat) -> Seq<char> {
    quoted_text(
        "Reached max_steps ("@,
        decimal(max_steps),
        ") without hitting the end node; the graph likely contains a cycle"@,
    )
}

/// The first error among outcomes, if there is one.
pub open spec fn first_failure(outcomes: Seq<Result<(), LangGraphError>>) -> Result<(), ErrorView>
    decreases outcomes.len(),
{
    if outcomes.len() == 0 {
        Ok(())
    } else if outcomes[0] is Err {
        outcome_view(outcomes[0])
    } else {
        first_failure(outcomes.drop_first())
    }
}

/// Whether running `nodes` of the graph on `state`, all of them, can come out
/// as `outcome`: it is the first failure, in some order of the nodes.
pub open spec fn nodes_can_give<S, N: AgentNode<S>, R>(
    graph: GraphView<N, R>,
    state: Arc<S>,
    nodes: Set<Name>,
    outcome: Result<(), ErrorView>,
) -> bool {
    exists|order: Seq<Name>, outcomes: Seq<Result<(), LangGraphError>>|
        #![trigger order.to_set(), first_failure(outcomes)]
        {
            &&& order.no_duplicates()
            &&& order.to_set() == nodes
            &&& outcomes.len() == order.len()
            &&& forall|i: int|
                0 <= i < order.len() ==> call_ensures(
                    N::apply,
                    (&graph.nodes[order[i]], state),
                    #[trigger] outcomes[i],
                )
            &&& outcome == first_failure(outcomes)
        }
}

/// The names of nodes that were run, in their order.
pub open spec fn applied_names(applied: Seq<(Name, Result<(), ErrorView>)>) -> Seq<Name> {
    applied.map_values(|ran: (Name, Result<(), ErrorView>)| ran.0)
}

/// The calls that running nodes comes to.
pub open spec fn ran_entries<N, R>(
    graph: GraphView<N, R>,
    applied: Seq<(Name, Result<(), ErrorView>)>,
) -> Seq<Entry<N, R>> {
    applied.map_values(
        |ran: (Name, Result<(), ErrorView>)|
            Entry::Ran { name: ran.0, node: graph.nodes[ran.0], outcome: ran.1 },
    )
}

/// The calls that asking routers comes to.
pub open spec fn asked_entries<N, R>(
    graph: GraphView<N, R>,
    asked: Seq<(Name, int, Name)>,
) -> Seq<Entry<N, R>> {
    asked.map_values(
        |ask: (Name, int, Name)|
            Entry::Asked {
                name: ask.0,
                index: ask.1,
                router: graph.routers[ask.0][ask.1],
                target: ask.2,
            },
    )
}

/// The calls that a run makes in the steps that `records` tells of: in each step
/// to its nodes, then to its routers.
pub open spec fn history<N, R>(
    graph: GraphView<N, R>,
    records: Seq<StepRecord>,
) -> Seq<Entry<N, R>>
    decreases records.len(),
{
    if records.len() == 0 {
        Seq::empty()
    } else {
        let last = records.last();
        history(graph, records.drop_last()) + ran_entries(graph, last.applied) + asked_entries(
            graph,
            last.asked,
        )
    }
}

/// Whether `applied` tells of running `nodes` of the graph on `state`, each of
/// them once, one after another, as they can come out once the calls `done` were
/// made.
pub open spec fn applied_can_be<S, N: Runs<S, R>, R>(
    graph: GraphView<N, R>,
    state: Arc<S>,
    done: Seq<Entry<N, R>>,
    nodes: Set<Name>,
    applied: Seq<(Name, Result<(), ErrorView>)>,
) -> bool {
    &&& applied_names(applied).no_duplicates()
    &&& applied_names(applied).to_set() == nodes
    &&& forall|i: int|
        0 <= i < applied.len() ==> node_gives(
            graph.nodes[(#[trigger] applied[i]).0],
            state,
            done + ran_entries(graph, applied.take(i)),
            applied[i].1,
        )
}

/// Whether `asked` tells of asking all routers of the names in `current` on
/// `state`, each of them once, one after another, as they can answer once the
/// calls `done` were made, and `routes` holds their answers.
pub open spec fn asked_can_be<S, N, R: Routes<S, N>>(
    graph: GraphView<N, R>,
    state: &S,
    done: Seq<Entry<N, R>>,
    current: Set<Name>,
    asked: Seq<(Name, int, Name)>,
    routes: Map<Name, Seq<Name>>,
) -> bool {
    &&& forall|i: int|
        0 <= i < asked.len() ==> {
            let (name, index, target) = #[trigger] asked[i];
            &&& current.contains(name)
            &&& graph.routers.dom().contains(name)
            &&& 0 <= index < graph.routers[name].len()
            &&& routes[name][index] == target
            &&& router_gives(
                graph.routers[name][index],
                state,
                done + asked_entries(graph, asked.take(i)),
                target,
            )
        }
    &&& forall|i: int, j: int|
        0 <= i < j < asked.len() ==> !((#[trigger] asked[i]).0 == (#[trigger] asked[j]).0
            && asked[i].1 == asked[j].1)
    &&& forall|name: Name|
        current.contains(name) && #[trigger] graph.routers.dom().contains(name) ==> {
            &&& routes[name].len() == graph.routers[name].len()
            &&& forall|index: int|
                0 <= index < graph.routers[name].len() ==> was_asked(
                    asked,
                    name,
                    index,
                    #[trigger] routes[name][index],
                )
        }
}

/// Whether a router was asked and returned `target`.
pub open spec fn was_asked(
    asked: Seq<(Name, int, Name)>,
    name: Name,
    index: int,
    target: Name,
) -> bool {
    asked.contains((name, index, target))
}

/// Whether running nodes as `applied` tells comes out as `outcome`: well if all
/// of them do, and else with the error of the first that fails.
pub open spec fn comes_out(
    applied: Seq<(Name, Result<(), ErrorView>)>,
    outcome: Result<(), ErrorView>,
) -> bool {
    match outcome {
        Ok(_) => forall|i: int| 0 <= i < applied.len() ==> (#[trigger] applied[i]).1 is Ok,
        Err(_) => exists|i: int|
            {
                &&& 0 <= i < applied.len()
                &&& (#[trigger] applied[i]).1 == outcome
                &&& forall|j: int| 0 <= j < i ==> (#[trigger] applied[j]).1 is Ok
            },
    }
}

/// Whether a router can return `route` on `state`.
pub open spec fn router_can_give<S, R: Fn(&S) -> String>(
    router: R,
    state: &S,
    route: Name,
) -> bool {
    exists|returned: String| #[trigger]
        call_ensures(router, (state,), returned) && returned@ == route
}

/// Whether the routers of a name can return `routes` on `state`.
pub open spec fn routers_can_give<S, R: Fn(&S) -> String>(
    routers: Seq<R>,
    state: &S,
    routes: Seq<Name>,
) -> bool {
    &&& routes.len() == routers.len()
    &&& forall|i: int|
        0 <= i < routers.len() ==> router_can_give(routers[i], state, #[trigger] routes[i])
}

/// Whether the routers of every current name can return `routes` on `state`.
pub open spec fn routes_can_be<S, N, R: Fn(&S) -> String>(
    graph: GraphView<N, R>,
    state: &S,
    current: Set<Name>,
    routes: Map<Name, Seq<Name>>,
) -> bool {
    forall|name: Name|
        #![trigger routes[name]]
        current.contains(name) && graph.routers.dom().contains(name) ==> routers_can_give(
            graph.routers[name],
            state,
            routes[name],
        )
}

/// Whether the events are those of running `nodes` in a step: each of them
/// starts once and finishes once, in that order, and nothing else happens.
pub open spec fn node_log(events: Seq<EventView>, step: nat, nodes: Set<Name>) -> bool {
    &&& events.len() == 2 * nodes.len()
    &&& events.no_duplicates()
    &&& forall|i: int|
        0 <= i < events.len() ==> match #[trigger] events[i] {
            EventView::NodeStarted { step: s, name } => s == step && nodes.contains(name),
            EventView::NodeFinished { step: s, name } => s == step && nodes.contains(name),
            _ => false,
        }
    &&& forall|name: Name| #[trigger]
        nodes.contains(name) ==> exists|i: int, j: int|
            {
                &&& 0 <= i < j < events.len()
                &&& #[trigger] events[i] == EventView::NodeStarted { step, name }
                &&& #[trigger] events[j] == EventView::NodeFinished { step, name }
            }
}

/// Whether a step at `at` on `state`, before which the calls `done` were made,
/// can be as `record` tells: the nodes that run come out as they can, and once
/// all of them were run, unless one failed, the routers return what they can.
pub open spec fn step_made<S, N: Runs<S, R>, R: Routes<S, N>>(
    graph: GraphView<N, R>,
    state: Arc<S>,
    done: Seq<Entry<N, R>>,
    at: Position,
    record: StepRecord,
) -> bool {
    let current = graph.entered(at).current;
    &&& applied_can_be(graph, state, done, graph.runnable(current), record.applied)
    &&& comes_out(record.applied, record.outcome)
    &&& record.outcome is Err ==> record.asked.len() == 0
    &&& record.outcome is Ok ==> asked_can_be(
        graph,
        &*state,
        done + ran_entries(graph, record.applied),
        current,
        record.asked,
        record.routes,
    )
}

/// Whether every step of a run on `state` can be as `records` tells, one after
/// another, with the calls that it tells of and no others.
pub open spec fn steps_made<S, N: Runs<S, R>, R: Routes<S, N>>(
    graph: GraphView<N, R>,
    state: Arc<S>,
    records: Seq<StepRecord>,
) -> bool
    decreases records.len(),
{
    records.len() > 0 ==> {
        let before = records.drop_last();
        &&& steps_made(graph, state, before)
        &&& step_made(
            graph,
            state,
            history(graph, before),
            graph.position(before),
            records.last(),
        )
    }
}

/// Whether a step at `at` on `state` can be as `record` tells: what it tells
/// of the nodes that run is what they can give, and likewise of the routers.
pub open spec fn step_can_be<S, N: AgentNode<S>, R: Fn(&S) -> String>(
    graph: GraphView<N, R>,
    state: Arc<S>,
    at: Position,
    record: StepRecord,
) -> bool {
    let current = graph.entered(at).current;
    &&& nodes_can_give(graph, state, graph.runnable(current), record.outcome)
    &&& record.outcome is Ok ==> routes_can_be(graph, &*state, current, record.routes)
}

/// Whether every step of a run on `state` can be as `records` tells.
pub open spec fn steps_can_be<S, N: AgentNode<S>, R: Fn(&S) -> String>(
    graph: GraphView<N, R>,
    state: Arc<S>,
    records: Seq<StepRecord>,
) -> bool
    decreases records.len(),
{
    records.len() > 0 ==> {
        &&& steps_can_be(graph, state, records.drop_last())
        &&& step_can_be(graph, state, graph.position(records.drop_last()), records.last())
    }
}

/// Whether the node events that `records` tells of are those of the nodes that
/// run in each step.
pub open spec fn node_logs<N, R>(graph: GraphView<N, R>, records: Seq<StepRecord>) -> bool
    decreases records.len(),
{
    records.len() > 0 ==> {
        let entered = graph.entered(graph.position(records.drop_last()));
        &&& node_logs(graph, records.drop_last())
        &&& node_log(records.last().node_events, entered.step, graph.runnable(entered.current))
    }
}

/// Contracts see the position of a run as what it holds.
pub proof fn positions_are_seen_as_they_are(cursor: Cursor)
    ensures
        cursor@.current == cursor.current@,
        cursor@.step == cursor.step,
        cursor@.reached_end == cursor.reached_end,
        cursor@.origin == cursor.origin,
{
}

} // verus!

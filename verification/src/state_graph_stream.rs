//! Streamed runs: a run as a log of events.

use std::sync::Arc;
use std::time::{Duration, Instant};

use vstd::prelude::*;

use crate::agent_node::AgentNode;
use crate::calls::{
    node_returns, runs_return_what_apply_does, Calls, Entry, Routes, Runs,
};
use crate::error::{outcome_view, quoted, LangGraphError};
use crate::execution::{
    applied_can_be, applied_names, asked_can_be, asked_entries, comes_out, failed, first_failure,
    history, node_log, node_logs, ran_entries, routes_can_be, step_made, steps_can_be, steps_made,
    Cursor, EventView, StepRecord,
};
use crate::laws::steps_are_counted;
use crate::names::{lists, names_of, Name};
use crate::state_graph::{
    applied_of, calls_to, first_error, lemma_calls_to_push, lemma_ran, made_steps_can_be,
    pair_names, pairs, StateGraph,
};
use crate::text::to_decimal;

verus! {

/// An event of a streamed run on a state of type `S`.
#[derive(Debug)]
pub enum StreamEvent<S> {
    /// The run has started.
    WorkflowStarted,
    /// A step has begun in which nodes run.
    StepStarted {
        /// The number of the step, counted from one.
        step: usize,
        /// The nodes that run in the step.
        nodes: Vec<String>,
    },
    /// A node has started.
    NodeStarted {
        /// The number of the step.
        step: usize,
        /// The name of the node.
        name: String,
    },
    /// A node has finished, well or not.
    NodeFinished {
        /// The number of the step.
        step: usize,
        /// The name of the node.
        name: String,
        /// How long the node ran.
        elapsed: Duration,
    },
    /// Control goes on to other names.
    RoutingDecision {
        /// The number of the step.
        step: usize,
        /// The names whose edges were followed.
        from_nodes: Vec<String>,
        /// The names that they lead to.
        to_nodes: Vec<String>,
    },
    /// The run has succeeded.
    WorkflowFinished {
        /// The state of the run.
        state: Arc<S>,
        /// The number of steps that were begun.
        total_steps: usize,
        /// How long the run took.
        elapsed: Duration,
    },
    /// The run has failed.
    WorkflowError {
        /// The state of the run.
        state: Arc<S>,
        /// The number of steps that were begun.
        step: usize,
        /// What went wrong.
        error: LangGraphError,
    },
}

impl<S> View for StreamEvent<S> {
    type V = EventView;

    open spec fn view(&self) -> EventView {
        match self {
            StreamEvent::WorkflowStarted => EventView::WorkflowStarted,
            StreamEvent::StepStarted { step, nodes } => EventView::StepStarted {
                step: *step as nat,
                nodes: names_of(nodes@).to_set(),
            },
            StreamEvent::NodeStarted { step, name } => EventView::NodeStarted {
                step: *step as nat,
                name: name@,
            },
            StreamEvent::NodeFinished { step, name, elapsed: _ } => EventView::NodeFinished {
                step: *step as nat,
                name: name@,
            },
            StreamEvent::RoutingDecision { step, from_nodes, to_nodes } =>
                EventView::RoutingDecision {
                    step: *step as nat,
                    from_nodes: names_of(from_nodes@).to_set(),
                    to_nodes: names_of(to_nodes@).to_set(),
                },
            StreamEvent::WorkflowFinished { state: _, total_steps, elapsed: _ } =>
                EventView::WorkflowFinished { total_steps: *total_steps as nat },
            StreamEvent::WorkflowError { state: _, step, error } => EventView::WorkflowError {
                step: *step as nat,
                error: error@,
            },
        }
    }
}

impl<S> StreamEvent<S> {
    /// Whether the event is one of a run on `state`: the state that it carries,
    /// if any, is that one, and its lists hold each name once.
    pub open spec fn tells_of(&self, state: Arc<S>) -> bool {
        match self {
            StreamEvent::StepStarted { step: _, nodes } => names_of(nodes@).no_duplicates(),
            StreamEvent::RoutingDecision { step: _, from_nodes, to_nodes } => {
                names_of(from_nodes@).no_duplicates() && names_of(to_nodes@).no_duplicates()
            },
            StreamEvent::WorkflowFinished { state: carried, total_steps: _, elapsed: _ } => *carried
                == state,
            StreamEvent::WorkflowError { state: carried, step: _, error: _ } => *carried == state,
            _ => true,
        }
    }
}

/// A log as contracts see it.
pub open spec fn log_view<S>(events: Seq<StreamEvent<S>>) -> Seq<EventView> {
    events.map_values(|event: StreamEvent<S>| event@)
}

/// Whether the events are those of a run on `state`.
pub open spec fn log_tells_of<S>(events: Seq<StreamEvent<S>>, state: Arc<S>) -> bool {
    forall|i: int| 0 <= i < events.len() ==> (#[trigger] events[i]).tells_of(state)
}

/// `std::time::Instant`, a point in time that only the clock can give. Nothing
/// is claimed of it.
#[verifier::external_type_specification]
#[verifier::external_body]
pub struct ExInstant(Instant);

/// `std::time::Instant::now`: the current time. Nothing is claimed of it.
pub assume_specification[ Instant::now ]() -> (now: Instant);

/// `std::time::Instant::elapsed`: the time since then. Nothing is claimed of
/// it.
pub assume_specification[ Instant::elapsed ](start: &Instant) -> (elapsed: Duration);

/// Adds an event to a log.
fn emit<S>(events: &mut Vec<StreamEvent<S>>, event: StreamEvent<S>)
    ensures
        final(events)@ == old(events)@.push(event),
        log_view(final(events)@) == log_view(old(events)@).push(event@),
{
    events.push(event);
    assert(log_view(events@) =~= log_view(old(events)@).push(event@));
}

/// The event of a run that fails.
pub fn fail<S>(state: &Arc<S>, step: usize, error: LangGraphError) -> (event: StreamEvent<S>)
    ensures
        event@ == (EventView::WorkflowError { step: step as nat, error: error@ }),
        event.tells_of(*state),
{
    StreamEvent::WorkflowError { state: Arc::clone(state), step, error }
}

/// The event of a step in which `nodes` run.
pub fn step_started<S, N>(step: usize, nodes: &Vec<(String, &N)>) -> (event: StreamEvent<S>)
    ensures
        event@ == (EventView::StepStarted {
            step: step as nat,
            nodes: pair_names(nodes@).to_set(),
        }),
        pair_names(nodes@).no_duplicates() ==> forall|state: Arc<S>| #[trigger]
            event.tells_of(state),
{
    let mut names: Vec<String> = Vec::new();
    let mut i: usize = 0;
    while i < nodes.len()
        invariant
            i <= nodes@.len(),
            names_of(names@) == pair_names(nodes@).take(i as int),
        decreases nodes@.len() - i,
    {
        let ghost before = names@;
        names.push(nodes[i].0.clone());
        proof {
            assert(names_of(names@) =~= names_of(before).push(nodes@[i as int].0@));
            assert(pair_names(nodes@).take(i + 1) =~= pair_names(nodes@).take(i as int).push(
                nodes@[i as int].0@,
            ));
        }
        i += 1;
    }
    assert(pair_names(nodes@).take(i as int) =~= pair_names(nodes@));
    StreamEvent::StepStarted { step, nodes: names }
}

/// Runs one node and notes when it starts and when it has finished.
pub fn run_node_with_events<S, N: AgentNode<S>>(
    events: &mut Vec<StreamEvent<S>>,
    name: &String,
    node: &N,
    state: &Arc<S>,
    step: usize,
) -> (result: Result<(), LangGraphError>)
    ensures
        call_ensures(N::apply, (node, *state), result),
        log_view(final(events)@) == log_view(old(events)@).push(
            EventView::NodeStarted { step: step as nat, name: name@ },
        ).push(EventView::NodeFinished { step: step as nat, name: name@ }),
        log_tells_of(old(events)@, *state) ==> log_tells_of(final(events)@, *state),
{
    let mut calls: Calls<N, ()> = Calls::start();
    let result = call_node_with_events(events, &mut calls, name, node, state, step);
    proof {
        runs_return_what_apply_does::<S, N, ()>(*node, *state, Seq::empty(), result);
    }
    result
}

/// Runs one node and notes when it starts and when it has finished.
fn call_node_with_events<S, N: Runs<S, R>, R>(
    events: &mut Vec<StreamEvent<S>>,
    calls: &mut Calls<N, R>,
    name: &String,
    node: &N,
    state: &Arc<S>,
    step: usize,
) -> (result: Result<(), LangGraphError>)
    ensures
        node_returns(*node, *state, old(calls)@, result),
        final(calls)@ == old(calls)@.push(
            (Entry::Ran { name: name@, node: *node, outcome: outcome_view(result) }),
        ),
        log_view(final(events)@) == log_view(old(events)@).push(
            EventView::NodeStarted { step: step as nat, name: name@ },
        ).push(EventView::NodeFinished { step: step as nat, name: name@ }),
        log_tells_of(old(events)@, *state) ==> log_tells_of(final(events)@, *state),
{
    emit(events, StreamEvent::NodeStarted { step, name: name.clone() });
    let started = Instant::now();
    let result = calls.run(name, node, state);
    let elapsed = started.elapsed();
    emit(events, StreamEvent::NodeFinished { step, name: name.clone(), elapsed });
    result
}

/// The events of nodes that run one after another.
pub open spec fn serial_log(names: Seq<Name>, step: nat) -> Seq<EventView> {
    Seq::new(
        2 * names.len(),
        |i: int|
            if i % 2 == 0 {
                EventView::NodeStarted { step, name: names[i / 2] }
            } else {
                EventView::NodeFinished { step, name: names[i / 2] }
            },
    )
}

/// Nodes that run one after another leave the log of a step.
proof fn lemma_serial_log(names: Seq<Name>, step: nat)
    requires
        names.no_duplicates(),
    ensures
        node_log(serial_log(names, step), step, names.to_set()),
{
    let events = serial_log(names, step);
    let nodes = names.to_set();
    names.unique_seq_to_set();
    assert forall|i: int, j: int|
        0 <= i < events.len() && 0 <= j < events.len() && i != j implies events[i]
        != events[j] by {
        if i % 2 == j % 2 {
            assert(i / 2 != j / 2);
        }
    }
    assert forall|i: int| 0 <= i < events.len() implies match #[trigger] events[i] {
        EventView::NodeStarted { step: s, name } => s == step && nodes.contains(name),
        EventView::NodeFinished { step: s, name } => s == step && nodes.contains(name),
        _ => false,
    } by {
        assert(names.contains(names[i / 2]));
    }
    assert forall|name: Name| #[trigger] nodes.contains(name) implies exists|i: int, j: int|
        {
            &&& 0 <= i < j < events.len()
            &&& #[trigger] events[i] == EventView::NodeStarted { step, name }
            &&& #[trigger] events[j] == EventView::NodeFinished { step, name }
        } by {
        let k = names.index_of(name);
        assert(events[2 * k] == EventView::NodeStarted { step, name });
        assert(events[2 * k + 1] == EventView::NodeFinished { step, name });
    }
}

/// Runs the nodes of a step, all of them, one after another. The result is the
/// first error in their order.
pub fn batch_apply_with_events<S, N: AgentNode<S>>(
    events: &mut Vec<StreamEvent<S>>,
    nodes: &Vec<(String, &N)>,
    state: &Arc<S>,
    step: usize,
) -> (result: Result<(), LangGraphError>)
    ensures
        log_view(final(events)@) == log_view(old(events)@) + serial_log(
            pair_names(nodes@),
            step as nat,
        ),
        log_tells_of(old(events)@, *state) ==> log_tells_of(final(events)@, *state),
        exists|outcomes: Seq<Result<(), LangGraphError>>|
            {
                &&& outcomes.len() == nodes@.len()
                &&& forall|i: int|
                    0 <= i < nodes@.len() ==> call_ensures(
                        N::apply,
                        (nodes@[i].1, *state),
                        #[trigger] outcomes[i],
                    )
                &&& outcome_view(result) == #[trigger] first_failure(outcomes)
            },
{
    let mut calls: Calls<N, ()> = Calls::start();
    let outcomes = run_nodes_with_events(events, &mut calls, nodes, state, step);
    let ghost all = outcomes@;
    proof {
        assert forall|i: int| 0 <= i < nodes@.len() implies call_ensures(
            N::apply,
            (nodes@[i].1, *state),
            #[trigger] all[i],
        ) by {
            runs_return_what_apply_does::<S, N, ()>(
                *nodes@[i].1,
                *state,
                Seq::<Entry<N, ()>>::empty() + calls_to(nodes@, all).take(i),
                all[i],
            );
        }
    }
    let result = first_error(outcomes);
    assert(outcome_view(result) == first_failure(all));
    result
}

/// Runs the nodes of a step, all of them, one after another, as calls of a run.
fn run_nodes_with_events<S, N: Runs<S, R>, R>(
    events: &mut Vec<StreamEvent<S>>,
    calls: &mut Calls<N, R>,
    nodes: &Vec<(String, &N)>,
    state: &Arc<S>,
    step: usize,
) -> (outcomes: Vec<Result<(), LangGraphError>>)
    ensures
        log_view(final(events)@) == log_view(old(events)@) + serial_log(
            pair_names(nodes@),
            step as nat,
        ),
        log_tells_of(old(events)@, *state) ==> log_tells_of(final(events)@, *state),
        outcomes@.len() == nodes@.len(),
        forall|i: int|
            0 <= i < nodes@.len() ==> node_returns(
                *nodes@[i].1,
                *state,
                old(calls)@ + calls_to(nodes@, outcomes@).take(i),
                #[trigger] outcomes@[i],
            ),
        final(calls)@ == old(calls)@ + calls_to(nodes@, outcomes@),
{
    let mut outcomes: Vec<Result<(), LangGraphError>> = Vec::new();
    let mut i: usize = 0;
    let ghost before = log_view(events@);
    let ghost done = calls@;
    let ghost names = pair_names(nodes@);
    assert(before + serial_log(names.take(0), step as nat) =~= before);
    assert(calls@ =~= done + calls_to(nodes@.take(0), outcomes@));
    while i < nodes.len()
        invariant
            i <= nodes@.len(),
            names == pair_names(nodes@),
            outcomes@.len() == i,
            done == old(calls)@,
            forall|k: int|
                0 <= k < i ==> node_returns(
                    *nodes@[k].1,
                    *state,
                    done + calls_to(nodes@.take(i as int), outcomes@).take(k),
                    #[trigger] outcomes@[k],
                ),
            before == log_view(old(events)@),
            log_view(events@) == before + serial_log(names.take(i as int), step as nat),
            log_tells_of(old(events)@, *state) ==> log_tells_of(events@, *state),
            calls@ == done + calls_to(nodes@.take(i as int), outcomes@),
        decreases nodes@.len() - i,
    {
        let (name, node) = (&nodes[i].0, nodes[i].1);
        let ghost told = outcomes@;
        let outcome = call_node_with_events(events, calls, name, node, state, step);
        outcomes.push(outcome);
        proof {
            assert(names[i as int] == name@);
            assert(log_view(events@) =~= before + serial_log(names.take(i + 1), step as nat));
            lemma_calls_to_push::<N, R>(nodes@, told, outcome, i as int);
            assert(calls@ =~= done + calls_to(nodes@.take(i + 1), outcomes@));
            assert forall|k: int| 0 <= k < i + 1 implies node_returns(
                *nodes@[k].1,
                *state,
                done + calls_to(nodes@.take(i + 1), outcomes@).take(k),
                #[trigger] outcomes@[k],
            ) by {
                if k < i {
                    assert(outcomes@[k] == told[k]);
                }
            }
        }
        i += 1;
    }
    assert(names.take(i as int) =~= names);
    assert(nodes@.take(i as int) =~= nodes@);
    outcomes
}

/// Whether the events of the nodes of each step come in the order in which the
/// nodes were run: each starts and finishes before the next starts.
pub open spec fn told_in_turn(records: Seq<StepRecord>) -> bool {
    forall|k: int|
        0 <= k < records.len() ==> (#[trigger] records[k]).node_events == serial_log(
            applied_names(records[k].applied),
            (k + 1) as nat,
        )
}

/// What a streamed run does next.
pub enum StreamEntry<'a, S, N> {
    /// It is over, as the event tells.
    Finish(StreamEvent<S>),
    /// It begins a step.
    Step {
        /// The event that tells of it, if nodes run in it.
        announcement: Option<StreamEvent<S>>,
        /// The nodes that run in it.
        nodes: Vec<(String, &'a N)>,
    },
}

/// How a streamed run leaves a step.
pub enum StreamExit<S> {
    /// The step failed, and the run with it, as the event tells.
    Fail(StreamEvent<S>),
    /// The run goes on, where the event tells.
    Routed(StreamEvent<S>),
}

/// Whether a step in which `nodes` run is announced as it should be: if there
/// are any, and then with all of them.
pub open spec fn announces<S>(
    announcement: Option<StreamEvent<S>>,
    step: nat,
    nodes: Set<Name>,
) -> bool {
    match announcement {
        Some(event) => {
            &&& nodes != Set::<Name>::empty()
            &&& event@ == EventView::StepStarted { step, nodes }
            &&& forall|state: Arc<S>| #[trigger] event.tells_of(state)
        },
        None => nodes == Set::<Name>::empty(),
    }
}

impl<N, R> StateGraph<N, R> {
    /// Takes a streamed run into its next step, or ends it. A run that ends has
    /// taken as long as `elapsed`.
    pub fn stream_enter<'a, S>(
        &'a self,
        cursor: &mut Cursor,
        state: &Arc<S>,
        elapsed: Duration,
    ) -> (entry: StreamEntry<'a, S, N>)
        requires
            self.wf(),
            old(cursor).wf(),
        ensures
            final(cursor).wf(),
            match entry {
                StreamEntry::Finish(event) => {
                    &&& self@.stream_stops(old(cursor)@)
                    &&& final(cursor)@ == self@.stream_rest(old(cursor)@)
                    &&& event@ == self@.end_event(final(cursor)@)
                    &&& event.tells_of(*state)
                    &&& event matches StreamEvent::WorkflowFinished { elapsed: told, .. } ==> told
                        == elapsed
                },
                StreamEntry::Step { announcement, nodes } => {
                    let runnable = self@.runnable(final(cursor)@.current);
                    &&& !self@.stream_stops(old(cursor)@)
                    &&& final(cursor)@ == self@.entered(old(cursor)@)
                    &&& pairs(nodes@, self@.nodes, runnable)
                    &&& announces(announcement, final(cursor)@.step, runnable)
                },
            },
    {
        if self.is_exhausted(cursor) {
            return StreamEntry::Finish(self.stream_end(cursor, state, elapsed));
        }
        self.enter(cursor);
        if cursor.current.is_empty() {
            return StreamEntry::Finish(self.stream_end(cursor, state, elapsed));
        }
        let nodes = self.get_node_by_keys(&cursor.current);
        let ghost names = pair_names(nodes@);
        if nodes.len() == 0 {
            assert(names.to_set() =~= Set::<Name>::empty());
            return StreamEntry::Step { announcement: None, nodes };
        }
        assert(names.to_set().contains(names[0])) by {
            assert(names.contains(names[0]));
        }
        let announcement = Some(step_started(cursor.step, &nodes));
        StreamEntry::Step { announcement, nodes }
    }

    /// The event of a run that is over, and did not fail in a step.
    fn stream_end<S>(&self, cursor: &Cursor, state: &Arc<S>, elapsed: Duration) -> (event:
        StreamEvent<S>)
        ensures
            event@ == self@.end_event(cursor@),
            event.tells_of(*state),
            event matches StreamEvent::WorkflowFinished { elapsed: told, .. } ==> told == elapsed,
    {
        if !cursor.reached_end {
            return fail(
                state,
                cursor.step,
                LangGraphError::GraphError(
                    quoted(
                        "Reached max_steps (",
                        to_decimal(self.max_steps()).as_str(),
                        ") without hitting the end node; the graph likely contains a cycle",
                    ),
                ),
            );
        }
        StreamEvent::WorkflowFinished {
            state: Arc::clone(state),
            total_steps: cursor.step,
            elapsed,
        }
    }

    /// Ends a step whose nodes came out as `outcome`: follows the edges of the
    /// current names, unless a node failed.
    pub fn stream_leave<S>(
        &self,
        cursor: &mut Cursor,
        state: &Arc<S>,
        outcome: Result<(), LangGraphError>,
    ) -> (exit: StreamExit<S>) where R: Fn(&S) -> String
        requires
            self.wf(),
            old(cursor).wf(),
            outcome is Ok ==> self@.routers_ready_at(old(cursor)@.current, &**state),
        ensures
            final(cursor).wf(),
            match outcome {
                Err(error) => {
                    &&& exit matches StreamExit::Fail(event)
                    &&& event@ == (EventView::WorkflowError {
                        step: old(cursor)@.step,
                        error: error@,
                    })
                    &&& event.tells_of(*state)
                    &&& final(cursor)@ == old(cursor)@
                },
                Ok(_) => {
                    &&& exit matches StreamExit::Routed(event)
                    &&& event.tells_of(*state)
                    &&& exists|routes: Map<Name, Seq<Name>>|
                        {
                            let next = #[trigger] self@.successors(old(cursor)@.current, routes);
                            &&& routes_can_be(self@, &**state, old(cursor)@.current, routes)
                            &&& final(cursor)@ == self@.moved(old(cursor)@, next)
                            &&& event@ == (EventView::RoutingDecision {
                                step: old(cursor)@.step,
                                from_nodes: old(cursor)@.current,
                                to_nodes: next,
                            })
                        }
                },
            },
    {
        if let Err(error) = outcome {
            return StreamExit::Fail(fail(state, cursor.step, error));
        }
        let next = self.get_next_node_key(&cursor.current, &**state).unwrap();
        let event = StreamEvent::RoutingDecision {
            step: cursor.step,
            from_nodes: cursor.current.to_vec(),
            to_nodes: next.to_vec(),
        };
        self.advance(cursor, next);
        StreamExit::Routed(event)
    }

    /// Follows the edges of the current names, and so ends a step that did not
    /// fail. The event tells of it.
    fn stream_follow<S>(
        &self,
        cursor: &mut Cursor,
        state: &Arc<S>,
        calls: &mut Calls<N, R>,
    ) -> (event: StreamEvent<S>) where R: Routes<S, N>
        requires
            self.wf(),
            old(cursor).wf(),
            self@.routers_reachable_at(old(cursor)@.current, &**state),
        ensures
            final(cursor).wf(),
            event.tells_of(*state),
            exists|asked: Seq<(Name, int, Name)>, routes: Map<Name, Seq<Name>>|
                {
                    let next = #[trigger] self@.successors(old(cursor)@.current, routes);
                    &&& asked_can_be(
                        self@,
                        &**state,
                        old(calls)@,
                        old(cursor)@.current,
                        asked,
                        routes,
                    )
                    &&& final(calls)@ == old(calls)@ + #[trigger] asked_entries(self@, asked)
                    &&& final(cursor)@ == self@.moved(old(cursor)@, next)
                    &&& event@ == (EventView::RoutingDecision {
                        step: old(cursor)@.step,
                        from_nodes: old(cursor)@.current,
                        to_nodes: next,
                    })
                },
    {
        let step = cursor.step;
        let from_nodes = cursor.current.to_vec();
        self.follow(cursor, &**state, calls);
        let to_nodes = cursor.current.to_vec();
        StreamEvent::RoutingDecision { step, from_nodes, to_nodes }
    }

    /// Notes the announcement of a step and runs its nodes.
    fn run_step<S>(
        &self,
        events: &mut Vec<StreamEvent<S>>,
        calls: &mut Calls<N, R>,
        announcement: Option<StreamEvent<S>>,
        nodes: &Vec<(String, &N)>,
        cursor: &Cursor,
        state: &Arc<S>,
    ) -> (outcomes: Vec<Result<(), LangGraphError>>) where N: Runs<S, R>
        requires
            pairs(nodes@, self@.nodes, self@.runnable(cursor@.current)),
            announces(announcement, cursor@.step, self@.runnable(cursor@.current)),
        ensures
            ({
                let set = self@.runnable(cursor@.current);
                let node_events = serial_log(pair_names(nodes@), cursor@.step);
                let applied = applied_of(nodes@, outcomes@);
                &&& node_log(node_events, cursor@.step, set)
                &&& applied_can_be(self@, *state, old(calls)@, set, applied)
                &&& comes_out(applied, first_failure(outcomes@))
                &&& final(calls)@ == old(calls)@ + ran_entries(self@, applied)
                &&& log_view(final(events)@) == log_view(old(events)@) + self@.run_log(
                    cursor@,
                    node_events,
                )
            }),
            log_tells_of(old(events)@, *state) ==> log_tells_of(final(events)@, *state),
    {
        let ghost names = pair_names(nodes@);
        let ghost set = self@.runnable(cursor@.current);
        let ghost before = log_view(events@);
        let ghost done = calls@;
        if let Some(event) = announcement {
            emit(events, event);
        }
        let outcomes = run_nodes_with_events(events, calls, nodes, state, cursor.step);
        proof {
            lemma_ran(self@, *state, done, nodes@, outcomes@, set);
            lemma_serial_log(names, cursor@.step);
            if names.len() > 0 {
                assert(names.contains(names[0]));
                assert(set.contains(names[0]));
            }
            assert(log_view(events@) =~= before + self@.run_log(
                cursor@,
                serial_log(names, cursor@.step),
            ));
        }
        outcomes
    }

    /// Runs the graph on a state and gives the log of the run. The nodes of a
    /// step run one after another, and once all of them have, its routers are
    /// asked.
    ///
    /// The run succeeds if and only if it reaches the end; it fails with the
    /// first error of the nodes of a step. The last event tells which.
    pub fn stream<S>(&self, state: Arc<S>) -> (events: Vec<StreamEvent<S>>) where
        N: AgentNode<S>,
        R: Fn(&S) -> String,

        requires
            self.wf(),
            self@.routers_ready(&*state),
        ensures
            log_tells_of(events@, state),
            exists|records: Seq<StepRecord>|
                {
                    &&& #[trigger] self@.stream_run(records)
                    &&& steps_can_be(self@, state, records)
                    &&& steps_made(self@, state, records)
                    &&& node_logs(self@, records)
                    &&& told_in_turn(records)
                    &&& log_view(events@) == self@.stream_log(records)
                },
    {
        let mut calls = Calls::start();
        let ghost given = state;
        let events = self.run_stream(state, &mut calls);
        proof {
            let records = choose|records: Seq<StepRecord>|
                {
                    &&& #[trigger] self@.stream_run(records)
                    &&& steps_made(self@, given, records)
                    &&& calls@ == history(self@, records)
                    &&& node_logs(self@, records)
                    &&& told_in_turn(records)
                    &&& log_view(events@) == self@.stream_log(records)
                };
            made_steps_can_be(self@, given, records);
        }
        events
    }

    /// Runs the graph on a state, reaches its nodes and routers through `calls`,
    /// and gives the log of the run.
    pub fn run_stream<S>(&self, state: Arc<S>, calls: &mut Calls<N, R>) -> (events: Vec<
        StreamEvent<S>,
    >) where N: Runs<S, R>, R: Routes<S, N>
        requires
            self.wf(),
            self@.routers_reachable(&*state),
            old(calls)@.len() == 0,
        ensures
            log_tells_of(events@, state),
            exists|records: Seq<StepRecord>|
                {
                    &&& #[trigger] self@.stream_run(records)
                    &&& steps_made(self@, state, records)
                    &&& final(calls)@ == history(self@, records)
                    &&& node_logs(self@, records)
                    &&& told_in_turn(records)
                    &&& log_view(events@) == self@.stream_log(records)
                },
    {
        let start_time = Instant::now();
        let mut events: Vec<StreamEvent<S>> = Vec::new();
        let mut cursor = self.begin();
        let ghost mut records: Seq<StepRecord> = Seq::empty();
        assert(log_view(events@) =~= Seq::empty());
        emit(&mut events, StreamEvent::WorkflowStarted);
        assert(log_view(events@) =~= seq![EventView::WorkflowStarted] + self@.steps_log(records));
        assert(calls@ =~= history(self@, records));
        loop
            invariant
                self.wf(),
                self@.routers_reachable(&*state),
                cursor.wf(),
                cursor@ == self@.position(records),
                calls@ == history(self@, records),
                self@.stream_going(records),
                steps_made(self@, state, records),
                node_logs(self@, records),
                told_in_turn(records),
                log_view(events@) == seq![EventView::WorkflowStarted] + self@.steps_log(records),
                log_tells_of(events@, state),
            decreases self@.max_steps - cursor@.step,
        {
            let ghost before = cursor@;
            let ghost logged = log_view(events@);
            let ghost done = calls@;
            match self.stream_enter(&mut cursor, &state, start_time.elapsed()) {
                StreamEntry::Finish(event) => {
                    emit(&mut events, event);
                    proof {
                        assert(!failed(records));
                        assert(self@.stream_run(records));
                    }
                    return events;
                },
                StreamEntry::Step { announcement, nodes } => {
                    let ghost entered = cursor@;
                    let ghost node_events = serial_log(pair_names(nodes@), cursor@.step);
                    let outcomes = self.run_step(
                        &mut events,
                        calls,
                        announcement,
                        &nodes,
                        &cursor,
                        &state,
                    );
                    let ghost ran = calls@;
                    let ghost applied = applied_of(nodes@, outcomes@);
                    proof {
                        steps_are_counted(self@, records);
                        assert(applied_names(applied) =~= pair_names(nodes@));
                    }
                    let outcome = first_error(outcomes);
                    let ghost outcome_given = outcome_view(outcome);
                    if let Err(error) = outcome {
                        emit(&mut events, fail(&state, cursor.step, error));
                        proof {
                            let record = StepRecord {
                                node_events,
                                applied,
                                asked: Seq::empty(),
                                outcome: outcome_given,
                                routes: Map::empty(),
                            };
                            let all = records.push(record);
                            assert(all.drop_last() =~= records);
                            assert(step_made(self@, state, done, before, record));
                            assert(log_view(events@) =~= logged + self@.step_log(before, record));
                            assert(log_view(events@) =~= self@.stream_log(all));
                            assert(calls@ =~= history(self@, all));
                            assert(self@.stream_run(all));
                        }
                        return events;
                    }
                    let event = self.stream_follow(&mut cursor, &state, calls);
                    proof {
                        let (asked, routes) = choose|
                            asked: Seq<(Name, int, Name)>,
                            routes: Map<Name, Seq<Name>>,
                        |
                            {
                                let next = #[trigger] self@.successors(entered.current, routes);
                                &&& asked_can_be(
                                    self@,
                                    &*state,
                                    ran,
                                    entered.current,
                                    asked,
                                    routes,
                                )
                                &&& calls@ == ran + #[trigger] asked_entries(self@, asked)
                                &&& cursor@ == self@.moved(entered, next)
                                &&& event@ == (EventView::RoutingDecision {
                                    step: entered.step,
                                    from_nodes: entered.current,
                                    to_nodes: next,
                                })
                            };
                        let record = StepRecord {
                            node_events,
                            applied,
                            asked,
                            outcome: outcome_given,
                            routes,
                        };
                        let all = records.push(record);
                        assert(all.drop_last() =~= records);
                        assert(step_made(self@, state, done, before, record));
                        assert(log_view(events@).push(event@) =~= logged + self@.step_log(
                            before,
                            record,
                        ));
                        assert(logged + self@.step_log(before, record) =~= seq![
                            EventView::WorkflowStarted,
                        ] + self@.steps_log(all));
                        assert(calls@ =~= history(self@, all));
                        records = all;
                    }
                    emit(&mut events, event);
                },
            }
        }
    }
}

/// Contracts see an event as what it is: the same kind, with the same step, the
/// same names, and the same error.
pub proof fn events_are_seen_as_they_are<S>(event: StreamEvent<S>)
    ensures
        match (event, event@) {
            (StreamEvent::WorkflowStarted, EventView::WorkflowStarted) => true,
            (
                StreamEvent::StepStarted { step, nodes },
                EventView::StepStarted { step: told, nodes: names },
            ) => {
                &&& told == step
                &&& forall|name: Name| #[trigger]
                    names.contains(name) <==> exists|i: int|
                        0 <= i < nodes@.len() && (#[trigger] nodes@[i])@ == name
            },
            (
                StreamEvent::NodeStarted { step, name },
                EventView::NodeStarted { step: told, name: node },
            ) => told == step && node == name@,
            (
                StreamEvent::NodeFinished { step, name, .. },
                EventView::NodeFinished { step: told, name: node },
            ) => told == step && node == name@,
            (
                StreamEvent::RoutingDecision { step, from_nodes, to_nodes },
                EventView::RoutingDecision { step: told, from_nodes: from, to_nodes: to },
            ) => {
                &&& told == step
                &&& forall|name: Name| #[trigger]
                    from.contains(name) <==> exists|i: int|
                        0 <= i < from_nodes@.len() && (#[trigger] from_nodes@[i])@ == name
                &&& forall|name: Name| #[trigger]
                    to.contains(name) <==> exists|i: int|
                        0 <= i < to_nodes@.len() && (#[trigger] to_nodes@[i])@ == name
            },
            (
                StreamEvent::WorkflowFinished { total_steps, .. },
                EventView::WorkflowFinished { total_steps: told },
            ) => told == total_steps,
            (
                StreamEvent::WorkflowError { step, error, .. },
                EventView::WorkflowError { step: told, error: cause },
            ) => told == step && cause == error@,
            _ => false,
        },
{
    match event {
        StreamEvent::StepStarted { nodes, .. } => {
            lemma_names_listed(nodes@);
        },
        StreamEvent::RoutingDecision { from_nodes, to_nodes, .. } => {
            lemma_names_listed(from_nodes@);
            lemma_names_listed(to_nodes@);
        },
        _ => {},
    }
}

/// Which names a list of strings holds.
proof fn lemma_names_listed(strings: Seq<String>)
    ensures
        forall|name: Name| #[trigger]
            names_of(strings).to_set().contains(name) <==> exists|i: int|
                0 <= i < strings.len() && (#[trigger] strings[i])@ == name,
{
    let names = names_of(strings);
    assert forall|name: Name| #[trigger]
        names.to_set().contains(name) <==> exists|i: int|
            0 <= i < strings.len() && (#[trigger] strings[i])@ == name by {
        if names.to_set().contains(name) {
            let i = names.index_of(name);
            assert(strings[i]@ == name);
        }
        if exists|i: int| 0 <= i < strings.len() && (#[trigger] strings[i])@ == name {
            let i = choose|i: int| 0 <= i < strings.len() && (#[trigger] strings[i])@ == name;
            assert(names[i] == name);
        }
    }
}

/// The events of a log are seen one by one, in their order. Those that tell of a
/// run on a state carry that state, and their lists hold no name twice.
pub proof fn logs_are_seen_event_by_event<S>(
    events: Seq<StreamEvent<S>>,
    state: Arc<S>,
    i: int,
)
    requires
        log_tells_of(events, state),
        0 <= i < events.len(),
    ensures
        log_view(events).len() == events.len(),
        log_view(events)[i] == events[i]@,
        match events[i] {
            StreamEvent::StepStarted { nodes, .. } => forall|a: int, b: int|
                0 <= a < b < nodes@.len() ==> (#[trigger] nodes@[a])@ != (#[trigger] nodes@[b])@,
            StreamEvent::RoutingDecision { from_nodes, to_nodes, .. } => {
                &&& forall|a: int, b: int|
                    0 <= a < b < from_nodes@.len() ==> (#[trigger] from_nodes@[a])@ != (
                    #[trigger] from_nodes@[b])@
                &&& forall|a: int, b: int|
                    0 <= a < b < to_nodes@.len() ==> (#[trigger] to_nodes@[a])@ != (
                    #[trigger] to_nodes@[b])@
            },
            StreamEvent::WorkflowFinished { state: carried, .. } => carried == state,
            StreamEvent::WorkflowError { state: carried, .. } => carried == state,
            _ => true,
        },
{
    assert(events[i].tells_of(state));
    match events[i] {
        StreamEvent::StepStarted { nodes, .. } => {
            lemma_names_differ(nodes@);
        },
        StreamEvent::RoutingDecision { from_nodes, to_nodes, .. } => {
            lemma_names_differ(from_nodes@);
            lemma_names_differ(to_nodes@);
        },
        _ => {},
    }
}

/// A list of strings that spell no name twice.
proof fn lemma_names_differ(strings: Seq<String>)
    requires
        names_of(strings).no_duplicates(),
    ensures
        forall|a: int, b: int|
            0 <= a < b < strings.len() ==> (#[trigger] strings[a])@ != (#[trigger] strings[b])@,
{
    assert forall|a: int, b: int| 0 <= a < b < strings.len() implies (#[trigger] strings[a])@ != (
    #[trigger] strings[b])@ by {
        assert(names_of(strings)[a] != names_of(strings)[b]);
    }
}

/// Nodes that run one after another are told of one after another: each starts,
/// then finishes, before the next starts.
pub proof fn nodes_in_turn_are_told_in_turn(names: Seq<Name>, step: nat, i: int)
    requires
        0 <= i < names.len(),
    ensures
        serial_log(names, step).len() == 2 * names.len(),
        serial_log(names, step)[2 * i] == (EventView::NodeStarted { step, name: names[i] }),
        serial_log(names, step)[2 * i + 1] == (EventView::NodeFinished { step, name: names[i] }),
{
}

/// A step is announced if and only if nodes run in it, with its number and the
/// names of all of them, each once.
pub proof fn announcements_name_the_nodes<S>(
    announcement: Option<StreamEvent<S>>,
    step: nat,
    nodes: Set<Name>,
    state: Arc<S>,
)
    requires
        announces(announcement, step, nodes),
    ensures
        announcement is Some <==> exists|name: Name| #[trigger] nodes.contains(name),
        announcement matches Some(event) ==> event matches StreamEvent::StepStarted {
            step: told,
            nodes: list,
        } && told == step && lists(list@, nodes),
{
    if announcement is None {
        assert(forall|name: Name| !#[trigger] nodes.contains(name));
    } else {
        let event = announcement->0;
        if !(exists|name: Name| #[trigger] nodes.contains(name)) {
            assert(nodes =~= Set::<Name>::empty());
        }
        assert(event.tells_of(state));
    }
}

} // verus!

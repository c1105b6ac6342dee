//! Compiled graphs and batch runs.

use std::sync::Arc;

use vstd::prelude::*;

use crate::agent_node::AgentNode;
use crate::calls::{
    node_gives, node_returns, router_gives, routes_return_what_functions_do,
    runs_return_what_apply_does, Calls, Entry, Routes, Runs,
};
use crate::error::{outcome_view, quoted, ErrorView, LangGraphError};
use crate::execution::{
    applied_can_be, applied_names, asked_can_be, asked_entries, comes_out, first_failure, history,
    nodes_can_give, not_found_text, ran_entries, router_can_give, routers_can_give,
    routes_can_be, step_made, steps_can_be, steps_made, was_asked, Cursor, Origin, StepRecord,
};
use crate::laws::lemma_first_failure;
use crate::model::{edges_view, edges_wf, routers_view, GraphView};
use crate::names::{lemma_push_contains, lemma_push_to_set, names_of, Name, NameMap, NameSet};

verus! {

/// A workflow graph that can run. Nodes are of type `N`, routers of type `R`.
///
/// A run does not change the graph, so it can run any number of times.
pub struct StateGraph<N, R> {
    /// The nodes.
    nodes: NameMap<N>,
    /// The fixed targets of each name with static edges.
    edges: NameMap<NameSet>,
    /// The routers of each name with conditional edges.
    conditional_edges: NameMap<Vec<R>>,
    /// The names that a run starts from.
    start_nodes: NameSet,
    /// The name that ends a run.
    end_node: String,
    /// The number of steps that a run may take.
    max_steps: usize,
}

impl<N, R> View for StateGraph<N, R> {
    type V = GraphView<N, R>;

    closed spec fn view(&self) -> GraphView<N, R> {
        GraphView {
            nodes: self.nodes@,
            edges: edges_view(self.edges@),
            routers: routers_view(self.conditional_edges@),
            start: self.start_nodes@,
            end: self.end_node@,
            max_steps: self.max_steps as nat,
        }
    }
}

/// The routes that a map of lists holds.
pub open spec fn routes_view(routes: Map<Name, Vec<String>>) -> Map<Name, Seq<Name>> {
    routes.map_values(|list: Vec<String>| names_of(list@))
}

/// Whether `nodes` pairs each name of `set`, once, with the node of that name.
pub open spec fn pairs<N>(
    nodes: Seq<(String, &N)>,
    graph_nodes: Map<Name, N>,
    set: Set<Name>,
) -> bool {
    &&& pair_names(nodes).no_duplicates()
    &&& pair_names(nodes).to_set() == set
    &&& forall|i: int|
        0 <= i < nodes.len() ==> {
            &&& graph_nodes.dom().contains((#[trigger] nodes[i]).0@)
            &&& *nodes[i].1 == graph_nodes[nodes[i].0@]
        }
}

/// The names in a list of pairs.
pub open spec fn pair_names<N>(nodes: Seq<(String, &N)>) -> Seq<Name> {
    nodes.map_values(|pair: (String, &N)| pair.0@)
}

impl<N, R> GraphView<N, R> {
    /// Whether every router can be called on `state`.
    pub open spec fn routers_ready<S>(self, state: &S) -> bool where R: Fn(&S) -> String {
        forall|name: Name, i: int|
            #![trigger self.routers[name][i]]
            self.routers.dom().contains(name) && 0 <= i < self.routers[name].len()
                ==> call_requires(self.routers[name][i], (state,))
    }

    /// Whether the routers of the names among `names` can be called on `state`.
    pub open spec fn routers_ready_at<S>(self, names: Set<Name>, state: &S) -> bool where
        R: Fn(&S) -> String,
    {
        forall|name: Name, i: int|
            #![trigger self.routers[name][i]]
            names.contains(name) && self.routers.dom().contains(name) && 0 <= i
                < self.routers[name].len() ==> call_requires(self.routers[name][i], (state,))
    }

    /// Whether a run can ask every router on `state`.
    pub open spec fn routers_reachable<S>(self, state: &S) -> bool where R: Routes<S, N> {
        forall|name: Name, i: int|
            #![trigger self.routers[name][i]]
            self.routers.dom().contains(name) && 0 <= i < self.routers[name].len()
                ==> self.routers[name][i].ready(state)
    }

    /// Whether a run can ask the routers of the names among `names` on `state`.
    pub open spec fn routers_reachable_at<S>(self, names: Set<Name>, state: &S) -> bool where
        R: Routes<S, N>,
    {
        forall|name: Name, i: int|
            #![trigger self.routers[name][i]]
            names.contains(name) && self.routers.dom().contains(name) && 0 <= i
                < self.routers[name].len() ==> self.routers[name][i].ready(state)
    }
}

impl<N, R> StateGraph<N, R> {
    /// The collections are valid.
    pub closed spec fn wf(&self) -> bool {
        &&& self.nodes.wf()
        &&& edges_wf(&self.edges)
        &&& self.conditional_edges.wf()
        &&& self.start_nodes.wf()
    }

    /// Puts a graph together.
    pub(crate) fn new(
        max_steps: usize,
        nodes: NameMap<N>,
        edges: NameMap<NameSet>,
        conditional_edges: NameMap<Vec<R>>,
        start_nodes: NameSet,
        end_node: String,
    ) -> (graph: Self)
        requires
            nodes.wf(),
            edges_wf(&edges),
            conditional_edges.wf(),
            start_nodes.wf(),
        ensures
            graph.wf(),
            graph@ == (GraphView {
                nodes: nodes@,
                edges: edges_view(edges@),
                routers: routers_view(conditional_edges@),
                start: start_nodes@,
                end: end_node@,
                max_steps: max_steps as nat,
            }),
    {
        StateGraph { nodes, edges, conditional_edges, start_nodes, end_node, max_steps }
    }

    /// The number of steps that a run may take.
    pub fn max_steps(&self) -> (max_steps: usize)
        ensures
            max_steps == self@.max_steps,
    {
        self.max_steps
    }

    /// Makes `keys`, and no other names, the names that a run starts from.
    /// They need not be known to the graph: a run skips those that are not.
    pub fn set_start_nodes(&mut self, keys: Vec<String>) -> (result: Result<(), LangGraphError>)
        requires
            old(self).wf(),
        ensures
            final(self).wf(),
            result is Ok,
            final(self)@ == (GraphView { start: names_of(keys@).to_set(), ..old(self)@ }),
    {
        self.start_nodes = NameSet::from_vec(keys);
        Ok(())
    }

    /// The node of a name.
    pub fn get_node_by_key(&self, key: &String) -> (node: Option<&N>)
        requires
            self.wf(),
        ensures
            match node {
                Some(node) => self@.registered(key@) && *node == self@.nodes[key@],
                None => !self@.registered(key@),
            },
    {
        self.nodes.get(key)
    }

    /// The nodes of the names among `keys` that have one, each with its name.
    /// Other names are skipped.
    pub fn get_node_by_keys<'a>(&'a self, keys: &NameSet) -> (nodes: Vec<(String, &'a N)>)
        requires
            self.wf(),
            keys.wf(),
        ensures
            pairs(nodes@, self@.nodes, self@.runnable(keys@)),
    {
        let mut nodes: Vec<(String, &'a N)> = Vec::new();
        let mut i: usize = 0;
        assert(pair_names(nodes@) =~= Seq::<Name>::empty());
        while i < keys.len()
            invariant
                self.wf(),
                keys.wf(),
                i <= keys.order().len(),
                pair_names(nodes@).no_duplicates(),
                forall|name: Name| #[trigger]
                    pair_names(nodes@).contains(name) <==> self@.registered(name)
                        && keys.order().take(i as int).contains(name),
                forall|k: int|
                    0 <= k < nodes@.len() ==> {
                        &&& self@.nodes.dom().contains((#[trigger] nodes@[k]).0@)
                        &&& *nodes@[k].1 == self@.nodes[nodes@[k].0@]
                    },
            decreases keys.order().len() - i,
        {
            let key = keys.at(i);
            let ghost before = nodes@;
            let ghost seen = keys.order().take(i as int);
            assert(keys.order().take(i + 1) =~= seen.push(key@));
            assert(!seen.contains(key@)) by {
                if seen.contains(key@) {
                    let j = seen.index_of(key@);
                    assert(keys.order()[j] == keys.order()[i as int]);
                }
            }
            match self.get_node_by_key(key) {
                Some(node) => {
                    nodes.push((key.clone(), node));
                    proof {
                        assert(!pair_names(before).contains(key@));
                        assert(pair_names(nodes@) =~= pair_names(before).push(key@));
                        lemma_push_contains(pair_names(before), key@);
                    }
                },
                None => {},
            }
            proof {
                lemma_push_contains(seen, key@);
            }
            i += 1;
        }
        proof {
            assert(keys.order().take(i as int) =~= keys.order());
            assert(pair_names(nodes@).to_set() =~= self@.runnable(keys@));
        }
        nodes
    }

    /// Whether the end is among `keys`.
    pub fn is_end_node(&self, keys: &NameSet) -> (ends: bool)
        ensures
            ends == keys@.contains(self@.end),
    {
        if keys.is_empty() {
            return false;
        }
        keys.contains(&self.end_node)
    }
}

/// What a batch run does next.
pub enum BatchEntry<'a, N> {
    /// It is over and has this result.
    Finish(Result<(), LangGraphError>),
    /// It runs these nodes, of which there may be none.
    Step(Vec<(String, &'a N)>),
}

/// The first error among outcomes, if there is one.
pub fn first_error(outcomes: Vec<Result<(), LangGraphError>>) -> (result: Result<
    (),
    LangGraphError,
>)
    ensures
        outcome_view(result) == first_failure(outcomes@),
{
    let ghost all = outcomes@;
    let mut rest = outcomes;
    let mut result: Result<(), LangGraphError> = Ok(());
    assert(all.skip(all.len() as int) =~= Seq::<Result<(), LangGraphError>>::empty());
    while rest.len() > 0
        invariant
            rest@.len() <= all.len(),
            rest@ == all.take(rest@.len() as int),
            outcome_view(result) == first_failure(all.skip(rest@.len() as int)),
        decreases rest@.len(),
    {
        let ghost len = rest@.len();
        let outcome = rest.pop();
        proof {
            assert(rest@ =~= all.take(len - 1));
            assert(all.skip(len - 1).drop_first() =~= all.skip(len as int));
            assert(outcome == Some(all[len - 1]));
            assert(all.skip(len - 1)[0] == all[len - 1]);
        }
        if let Some(Err(error)) = outcome {
            result = Err(error);
        }
    }
    assert(all.skip(0) =~= all);
    result
}

impl<N, R> StateGraph<N, R> {
    /// Asks the routers of every name among `keys` that has conditional edges.
    fn ask_routers<S>(&self, keys: &NameSet, state: &S, calls: &mut Calls<N, R>) -> (routes:
        NameMap<Vec<String>>) where R: Routes<S, N>
        requires
            self.wf(),
            keys.wf(),
            self@.routers_reachable_at(keys@, state),
        ensures
            routes.wf(),
            routes@.dom() == keys@.intersect(self@.routers.dom()),
            exists|asked: Seq<(Name, int, Name)>|
                {
                    &&& asked_can_be(
                        self@,
                        state,
                        old(calls)@,
                        keys@,
                        asked,
                        routes_view(routes@),
                    )
                    &&& final(calls)@ == old(calls)@ + #[trigger] asked_entries(self@, asked)
                },
    {
        let mut routes: NameMap<Vec<String>> = NameMap::new();
        let mut i: usize = 0;
        let ghost mut asked: Seq<(Name, int, Name)> = Seq::empty();
        let ghost done = calls@;
        assert(calls@ =~= done + asked_entries(self@, asked));
        assert(keys.order().take(0).to_set() =~= Set::<Name>::empty());
        while i < keys.len()
            invariant
                self.wf(),
                keys.wf(),
                self@.routers_reachable_at(keys@, state),
                routes.wf(),
                i <= keys.order().len(),
                routes@.dom() == keys.order().take(i as int).to_set().intersect(
                    self@.routers.dom(),
                ),
                asked_can_be(
                    self@,
                    state,
                    done,
                    keys.order().take(i as int).to_set(),
                    asked,
                    routes_view(routes@),
                ),
                calls@ == done + asked_entries(self@, asked),
            decreases keys.order().len() - i,
        {
            let key = keys.at(i);
            let ghost seen = keys.order().take(i as int);
            let ghost before = routes_view(routes@);
            proof {
                assert(keys.order().take(i + 1) =~= seen.push(key@));
                lemma_push_to_set(seen, key@);
                assert(!seen.contains(key@)) by {
                    if seen.contains(key@) {
                        let j = seen.index_of(key@);
                        assert(keys.order()[j] == keys.order()[i as int]);
                    }
                }
            }
            match self.conditional_edges.get(key) {
                Some(routers) => {
                    let ghost was = calls@;
                    let given = self.call_routers(key, routers, state, calls);
                    let ghost list = names_of(given@);
                    routes.insert(key.clone(), given);
                    proof {
                        assert(routes_view(routes@) =~= before.insert(key@, list));
                        let part = asks(key@, list);
                        lemma_asked_more(
                            self@,
                            state,
                            done,
                            seen.to_set(),
                            asked,
                            before,
                            key@,
                            list,
                        );
                        assert(asked_entries(self@, asked + part) =~= asked_entries(self@, asked)
                            + asked_entries(self@, part));
                        assert(calls@ =~= done + asked_entries(self@, asked + part));
                        asked = asked + part;
                    }
                },
                None => {
                    proof {
                        lemma_asked_no_more(
                            self@,
                            state,
                            done,
                            seen.to_set(),
                            asked,
                            before,
                            key@,
                        );
                    }
                },
            }
            assert(routes@.dom() =~= keys.order().take(i + 1).to_set().intersect(
                self@.routers.dom(),
            ));
            i += 1;
        }
        assert(keys.order().take(i as int) =~= keys.order());
        routes
    }

    /// Asks the routers of one name.
    fn call_routers<S>(
        &self,
        key: &String,
        routers: &Vec<R>,
        state: &S,
        calls: &mut Calls<N, R>,
    ) -> (routes: Vec<String>) where R: Routes<S, N>
        requires
            self@.routers_reachable_at(set![key@], state),
            self@.routers.dom().contains(key@),
            self@.routers[key@] == routers@,
        ensures
            routes@.len() == routers@.len(),
            forall|k: int|
                0 <= k < routers@.len() ==> router_gives(
                    routers@[k],
                    state,
                    old(calls)@ + asked_entries(self@, asks(key@, names_of(routes@)).take(k)),
                    #[trigger] names_of(routes@)[k],
                ),
            final(calls)@ == old(calls)@ + asked_entries(self@, asks(key@, names_of(routes@))),
    {
        let mut routes: Vec<String> = Vec::new();
        let mut i: usize = 0;
        let ghost done = calls@;
        assert(calls@ =~= done + asked_entries(self@, asks(key@, names_of(routes@))));
        while i < routers.len()
            invariant
                self@.routers_reachable_at(set![key@], state),
                self@.routers.dom().contains(key@),
                self@.routers[key@] == routers@,
                i <= routers@.len(),
                routes@.len() == i,
                done == old(calls)@,
                forall|k: int|
                    0 <= k < i ==> router_gives(
                        routers@[k],
                        state,
                        done + asked_entries(self@, asks(key@, names_of(routes@)).take(k)),
                        #[trigger] names_of(routes@)[k],
                    ),
                calls@ == done + asked_entries(self@, asks(key@, names_of(routes@))),
            decreases routers@.len() - i,
        {
            let router = &routers[i];
            let ghost before = names_of(routes@);
            assert(self@.routers[key@][i as int] == *router);
            let target = calls.ask(key, i, router, state);
            let ghost told = target@;
            routes.push(target);
            proof {
                let after = names_of(routes@);
                assert(after =~= before.push(told));
                assert(asks(key@, before).take(i as int) =~= asks(key@, before));
                assert forall|k: int| 0 <= k < i + 1 implies router_gives(
                    routers@[k],
                    state,
                    done + asked_entries(self@, asks(key@, after).take(k)),
                    #[trigger] after[k],
                ) by {
                    assert(asks(key@, after).take(k) =~= asks(key@, before).take(k));
                    if k < i {
                        assert(after[k] == before[k]);
                    }
                }
                assert(calls@ =~= done + asked_entries(self@, asks(key@, after)));
            }
            i += 1;
        }
        routes
    }

    /// Calls the routers of every name among `keys` that has conditional edges.
    pub fn evaluate_routers<S>(&self, keys: &NameSet, state: &S) -> (routes: NameMap<
        Vec<String>,
    >) where R: Fn(&S) -> String
        requires
            self.wf(),
            keys.wf(),
            self@.routers_ready_at(keys@, state),
        ensures
            routes.wf(),
            routes@.dom() == keys@.intersect(self@.routers.dom()),
            routes_can_be(self@, state, keys@, routes_view(routes@)),
    {
        let mut calls = Calls::apart();
        let routes = self.ask_routers(keys, state, &mut calls);
        proof {
            let asked = choose|asked: Seq<(Name, int, Name)>|
                {
                    &&& asked_can_be(
                        self@,
                        state,
                        Seq::empty(),
                        keys@,
                        asked,
                        routes_view(routes@),
                    )
                    &&& calls@ == Seq::<Entry<N, R>>::empty() + #[trigger] asked_entries(
                        self@,
                        asked,
                    )
                };
            lemma_asked_routes(self@, state, Seq::empty(), keys@, asked, routes_view(routes@));
        }
        routes
    }

    /// The names that control goes to from `keys`, given what their routers
    /// returned: the fixed targets and the routes of all of them, each once.
    pub fn successors(&self, keys: &NameSet, routes: &NameMap<Vec<String>>) -> (next: NameSet)
        requires
            self.wf(),
            routes.wf(),
            forall|name: Name|
                keys@.contains(name) && #[trigger] self@.routers.dom().contains(name)
                    ==> routes@.dom().contains(name),
        ensures
            next.wf(),
            next@ == self@.successors(keys@, routes_view(routes@)),
    {
        let mut next = NameSet::new();
        let ghost given = routes_view(routes@);
        let mut i: usize = 0;
        while i < keys.len()
            invariant
                self.wf(),
                routes.wf(),
                next.wf(),
                given == routes_view(routes@),
                forall|name: Name|
                    keys@.contains(name) && #[trigger] self@.routers.dom().contains(name)
                        ==> routes@.dom().contains(name),
                i <= keys.order().len(),
                next@ == self@.successors(keys.order().take(i as int).to_set(), given),
            decreases keys.order().len() - i,
        {
            let key = keys.at(i);
            let ghost seen = keys.order().take(i as int);
            let ghost before = next@;
            if let Some(targets) = self.edges.get(key) {
                next.extend_from_set(targets);
                assert(self@.edges[key@] == targets@);
            }
            let ghost middle = next@;
            if self.conditional_edges.contains_key(key) {
                if let Some(list) = routes.get(key) {
                    next.extend_from_list(list);
                    assert(given[key@] == names_of(list@));
                }
            }
            proof {
                assert(keys.order().take(i + 1) =~= seen.push(key@));
                lemma_push_to_set(seen, key@);
                assert forall|target: Name| next@.contains(target) <==> self@.successors(
                    seen.to_set().insert(key@),
                    given,
                ).contains(target) by {
                    if self@.leads_to(key@, given, target) {
                        assert(seen.to_set().insert(key@).contains(key@));
                    }
                    if before.contains(target) {
                        let from = choose|from: Name| #[trigger]
                            seen.to_set().contains(from) && self@.leads_to(from, given, target);
                        assert(seen.to_set().insert(key@).contains(from));
                    }
                    if self@.successors(seen.to_set().insert(key@), given).contains(target) {
                        let from = choose|from: Name| #[trigger]
                            seen.to_set().insert(key@).contains(from) && self@.leads_to(
                                from,
                                given,
                                target,
                            );
                        if from != key@ {
                            assert(seen.to_set().contains(from));
                        }
                    }
                }
                assert(next@ =~= self@.successors(seen.to_set().insert(key@), given));
            }
            i += 1;
        }
        assert(keys.order().take(i as int) =~= keys.order());
        next
    }

    /// The names that control goes to from `keys`.
    pub fn get_next_node_key<S>(&self, keys: &NameSet, state: &S) -> (result: Result<
        NameSet,
        LangGraphError,
    >) where R: Fn(&S) -> String
        requires
            self.wf(),
            keys.wf(),
            self@.routers_ready_at(keys@, state),
        ensures
            result matches Ok(next) && next.wf() && exists|routes: Map<Name, Seq<Name>>|
                routes_can_be(self@, state, keys@, routes) && next@ == #[trigger] self@.successors(
                    keys@,
                    routes,
                ),
    {
        if keys.is_empty() {
            let next = NameSet::new();
            proof {
                let routes = Map::<Name, Seq<Name>>::empty();
                assert(routes_can_be(self@, state, keys@, routes));
                assert(next@ =~= self@.successors(keys@, routes));
            }
            return Ok(next);
        }
        let routes = self.evaluate_routers(keys, state);
        Ok(self.successors(keys, &routes))
    }
}

impl<N, R> StateGraph<N, R> {
    /// Where a run starts.
    pub fn begin(&self) -> (cursor: Cursor)
        requires
            self.wf(),
        ensures
            cursor.wf(),
            cursor@ == self@.start_position(),
    {
        Cursor {
            current: self.start_nodes.copy(),
            step: 0,
            reached_end: false,
            origin: Origin::Start,
        }
    }

    /// Whether the step budget is used up.
    pub fn is_exhausted(&self, cursor: &Cursor) -> (exhausted: bool)
        ensures
            exhausted == self@.exhausted(cursor@),
    {
        cursor.step >= self.max_steps
    }

    /// Begins a step.
    pub fn enter(&self, cursor: &mut Cursor)
        requires
            old(cursor).wf(),
            !self@.exhausted(old(cursor)@),
        ensures
            final(cursor).wf(),
            final(cursor)@ == self@.entered(old(cursor)@),
    {
        let ghost before = cursor@;
        cursor.step = cursor.step + 1;
        if self.is_end_node(&cursor.current) {
            cursor.current.remove(&self.end_node);
            cursor.reached_end = true;
        } else {
            assert(before.current.remove(self@.end) =~= before.current);
        }
    }

    /// Where names come from that a step on `current` leads to.
    fn departure(&self, current: &NameSet) -> (origin: Origin)
        ensures
            origin == self@.departure(current@),
    {
        let mut origin = Origin::Strays;
        let mut i: usize = 0;
        while i < current.len()
            invariant
                i <= current.order().len(),
                forall|k: int|
                    0 <= k < i ==> !self@.registered(#[trigger] current.order()[k]),
                origin == Origin::Strays || origin == Origin::Markers,
                origin == Origin::Strays ==> forall|k: int|
                    0 <= k < i ==> !self@.has_edges(#[trigger] current.order()[k]),
                origin == Origin::Markers ==> exists|name: Name| #[trigger]
                    current@.contains(name) && self@.has_edges(name),
            decreases current.order().len() - i,
        {
            let name = current.at(i);
            if self.nodes.contains_key(name) {
                assert(current@.contains(name@) && self@.registered(name@));
                return Origin::Nodes;
            }
            if self.edges.contains_key(name) || self.conditional_edges.contains_key(name) {
                assert(current@.contains(name@) && self@.has_edges(name@));
                origin = Origin::Markers;
            }
            i += 1;
        }
        origin
    }

    /// Ends a step that led to `next`.
    pub fn advance(&self, cursor: &mut Cursor, next: NameSet)
        requires
            next.wf(),
        ensures
            final(cursor).wf(),
            final(cursor)@ == self@.moved(old(cursor)@, next@),
    {
        cursor.origin = self.departure(&cursor.current);
        cursor.current = next;
    }

    /// Whether the graph knows a name.
    fn knows(&self, name: &String) -> (known: bool)
        ensures
            known == self@.known(name@),
    {
        self.nodes.contains_key(name) || self.edges.contains_key(name)
            || self.conditional_edges.contains_key(name) || *name == self.end_node
    }

    /// Whether the graph knows a name among `current`.
    fn knows_any(&self, current: &NameSet) -> (known: bool)
        ensures
            known == exists|name: Name| #[trigger] current@.contains(name) && self@.known(name),
    {
        let mut i: usize = 0;
        while i < current.len()
            invariant
                i <= current.order().len(),
                forall|k: int| 0 <= k < i ==> !self@.known(#[trigger] current.order()[k]),
            decreases current.order().len() - i,
        {
            let name = current.at(i);
            if self.knows(name) {
                return true;
            }
            i += 1;
        }
        false
    }

    /// The text about names that the graph does not know.
    fn not_found(&self, names: &NameSet) -> (text: String)
        requires
            names.wf(),
            names.order().len() > 0,
        ensures
            text@ == not_found_text(names@),
    {
        let ghost order = names.order();
        let first = names.at(0);
        if names.len() == 1 {
            proof {
                assert(names@ =~= set![first@]) by {
                    assert forall|name: Name| names@.contains(name) implies name == first@ by {
                        let i = order.index_of(name);
                        assert(order.contains(name));
                    }
                }
                assert(set![first@].contains(first@));
            }
            return quoted("Node '", first.as_str(), "' not found in graph");
        }
        assert(names@ != set![names@.choose()]) by {
            assert(order.contains(order[0]) && order.contains(order[1]));
            assert(names@.contains(order[0]) && names@.contains(order[1]));
        }
        "Target nodes not found in graph".to_string()
    }

    /// Takes a batch run into its next step, or ends it.
    pub fn batch_enter<'a>(&'a self, cursor: &mut Cursor) -> (entry: BatchEntry<'a, N>)
        requires
            self.wf(),
            old(cursor).wf(),
        ensures
            final(cursor).wf(),
            match entry {
                BatchEntry::Finish(result) => {
                    &&& self@.batch_stops(old(cursor)@)
                    &&& outcome_view(result) == self@.batch_end(old(cursor)@)
                    &&& final(cursor)@ == self@.stream_rest(old(cursor)@)
                },
                BatchEntry::Step(nodes) => {
                    &&& !self@.batch_stops(old(cursor)@)
                    &&& final(cursor)@ == self@.entered(old(cursor)@)
                    &&& pairs(nodes@, self@.nodes, self@.runnable(final(cursor)@.current))
                },
            },
    {
        if self.is_exhausted(cursor) {
            return BatchEntry::Finish(Ok(()));
        }
        self.enter(cursor);
        if cursor.current.is_empty() {
            if !cursor.reached_end && (cursor.origin == Origin::Nodes || cursor.origin
                == Origin::Markers) {
                let msg = "Dead-end: no outgoing edge leads on and the end node was not reached";
                return BatchEntry::Finish(Err(LangGraphError::GraphError(msg.to_string())));
            }
            return BatchEntry::Finish(Ok(()));
        }
        if cursor.origin == Origin::Markers && !cursor.reached_end && !self.knows_any(
            &cursor.current,
        ) {
            let msg = self.not_found(&cursor.current);
            return BatchEntry::Finish(Err(LangGraphError::NotFound(msg)));
        }
        BatchEntry::Step(self.get_node_by_keys(&cursor.current))
    }

    /// Follows the edges of the current names and so ends the step.
    pub(crate) fn follow<S>(
        &self,
        cursor: &mut Cursor,
        state: &S,
        calls: &mut Calls<N, R>,
    ) where R: Routes<S, N>
        requires
            self.wf(),
            old(cursor).wf(),
            self@.routers_reachable_at(old(cursor)@.current, state),
        ensures
            final(cursor).wf(),
            exists|asked: Seq<(Name, int, Name)>, routes: Map<Name, Seq<Name>>|
                {
                    &&& asked_can_be(
                        self@,
                        state,
                        old(calls)@,
                        old(cursor)@.current,
                        asked,
                        routes,
                    )
                    &&& final(calls)@ == old(calls)@ + #[trigger] asked_entries(self@, asked)
                    &&& final(cursor)@ == self@.moved(
                        old(cursor)@,
                        #[trigger] self@.successors(old(cursor)@.current, routes),
                    )
                },
    {
        let routes = self.ask_routers(&cursor.current, state, calls);
        let next = self.successors(&cursor.current, &routes);
        self.advance(cursor, next);
    }

    /// Ends a step whose nodes came out as `outcome`: follows the edges of the
    /// current names, unless a node failed. An error ends the run.
    ///
    /// This is for runners that run the nodes of a step themselves.
    pub fn batch_leave<S>(
        &self,
        cursor: &mut Cursor,
        state: &S,
        outcome: Result<(), LangGraphError>,
    ) -> (result: Result<(), LangGraphError>) where R: Fn(&S) -> String
        requires
            self.wf(),
            old(cursor).wf(),
            outcome is Ok ==> self@.routers_ready_at(old(cursor)@.current, state),
        ensures
            final(cursor).wf(),
            result == outcome,
            outcome is Err ==> final(cursor)@ == old(cursor)@,
            outcome is Ok ==> exists|routes: Map<Name, Seq<Name>>|
                routes_can_be(self@, state, old(cursor)@.current, routes) && final(cursor)@
                    == self@.moved(
                    old(cursor)@,
                    #[trigger] self@.successors(old(cursor)@.current, routes),
                ),
    {
        outcome?;
        let next = self.get_next_node_key(&cursor.current, state)?;
        self.advance(cursor, next);
        Ok(())
    }

    /// Runs nodes, all of them. The result is the first error in their order.
    pub fn batch_apply<S>(&self, nodes: Vec<(String, &N)>, state: &Arc<S>) -> (result: Result<
        (),
        LangGraphError,
    >) where N: AgentNode<S>
        ensures
            exists|outcomes: Seq<Result<(), LangGraphError>>|
                {
                    &&& outcomes.len() == nodes@.len()
                    &&& forall|i: int|
                        0 <= i < nodes@.len() ==> call_ensures(
                            N::apply,
                            (nodes@[i].1, *state),
                            #[trigger] outcomes[i],
                        )
                    &&& outcome_view(result) == #[trigger] first_failure(outcomes)
                },
            forall|set: Set<Name>| #[trigger]
                pairs(nodes@, self@.nodes, set) ==> nodes_can_give(
                    self@,
                    *state,
                    set,
                    outcome_view(result),
                ),
    {
        let mut calls: Calls<N, R> = Calls::start();
        let outcomes = run_nodes(&mut calls, &nodes, state);
        let ghost all = outcomes@;
        let result = first_error(outcomes);
        proof {
            assert forall|i: int| 0 <= i < nodes@.len() implies call_ensures(
                N::apply,
                (nodes@[i].1, *state),
                #[trigger] all[i],
            ) by {
                runs_return_what_apply_does::<S, N, R>(
                    *nodes@[i].1,
                    *state,
                    Seq::<Entry<N, R>>::empty() + calls_to(nodes@, all).take(i),
                    all[i],
                );
            }
            assert(outcome_view(result) == first_failure(all));
            assert forall|set: Set<Name>| #[trigger]
                pairs(nodes@, self@.nodes, set) implies nodes_can_give(
                self@,
                *state,
                set,
                outcome_view(result),
            ) by {
                let order = pair_names(nodes@);
                assert forall|k: int| 0 <= k < order.len() implies call_ensures(
                    N::apply,
                    (&self@.nodes[order[k]], *state),
                    #[trigger] all[k],
                ) by {
                    assert(nodes@[k].0@ == order[k]);
                }
                assert(order.to_set() == set && outcome_view(result) == first_failure(all));
            }
        }
        result
    }

    /// Runs the graph on a state. The nodes of a step run one after another, and
    /// once all of them have, its routers are asked.
    ///
    /// The run ends well when the end is reached and nothing else is left to
    /// do, and also when the step budget is used up. It fails with the first
    /// error of the nodes of a step, at a dead end, and where a start marker
    /// leads only to names that the graph does not know.
    pub fn invoke<S>(&self, state: Arc<S>) -> (result: Result<(), LangGraphError>) where
        N: AgentNode<S>,
        R: Fn(&S) -> String,

        requires
            self.wf(),
            self@.routers_ready(&*state),
        ensures
            exists|records: Seq<StepRecord>|
                {
                    &&& #[trigger] self@.batch_run(records, outcome_view(result))
                    &&& steps_can_be(self@, state, records)
                    &&& steps_made(self@, state, records)
                },
    {
        let mut calls = Calls::start();
        let ghost given = state;
        let result = self.run_batch(state, &mut calls);
        proof {
            let records = choose|records: Seq<StepRecord>|
                {
                    &&& #[trigger] self@.batch_run(records, outcome_view(result))
                    &&& steps_made(self@, given, records)
                    &&& calls@ == history(self@, records)
                };
            made_steps_can_be(self@, given, records);
        }
        result
    }

    /// Runs the graph on a state, and reaches its nodes and routers through
    /// `calls`.
    pub fn run_batch<S>(&self, state: Arc<S>, calls: &mut Calls<N, R>) -> (result: Result<
        (),
        LangGraphError,
    >) where N: Runs<S, R>, R: Routes<S, N>
        requires
            self.wf(),
            self@.routers_reachable(&*state),
            old(calls)@.len() == 0,
        ensures
            exists|records: Seq<StepRecord>|
                {
                    &&& #[trigger] self@.batch_run(records, outcome_view(result))
                    &&& steps_made(self@, state, records)
                    &&& final(calls)@ == history(self@, records)
                },
    {
        let mut cursor = self.begin();
        let ghost mut records: Seq<StepRecord> = Seq::empty();
        assert(calls@ =~= history(self@, records));
        loop
            invariant
                self.wf(),
                self@.routers_reachable(&*state),
                cursor.wf(),
                cursor@ == self@.position(records),
                calls@ == history(self@, records),
                self@.batch_going(records),
                steps_made(self@, state, records),
            decreases self@.max_steps - cursor@.step,
        {
            let ghost before = cursor@;
            let ghost done = calls@;
            match self.batch_enter(&mut cursor) {
                BatchEntry::Finish(result) => {
                    assert(self@.batch_run(records, outcome_view(result)));
                    return result;
                },
                BatchEntry::Step(nodes) => {
                    let ghost entered = cursor@;
                    let outcomes = run_nodes(calls, &nodes, &state);
                    let ghost applied = applied_of(nodes@, outcomes@);
                    proof {
                        lemma_ran(
                            self@,
                            state,
                            done,
                            nodes@,
                            outcomes@,
                            self@.runnable(entered.current),
                        );
                    }
                    let result = first_error(outcomes);
                    if result.is_err() {
                        proof {
                            let record = StepRecord {
                                node_events: Seq::empty(),
                                applied,
                                asked: Seq::empty(),
                                outcome: outcome_view(result),
                                routes: Map::empty(),
                            };
                            let all = records.push(record);
                            assert(all.drop_last() =~= records);
                            assert(step_made(self@, state, done, before, record));
                            assert(steps_made(self@, state, all));
                            assert(calls@ =~= history(self@, all));
                            assert(self@.batch_run(all, outcome_view(result)));
                        }
                        return result;
                    }
                    let ghost ran = calls@;
                    self.follow(&mut cursor, &*state, calls);
                    proof {
                        let (asked, routes) = choose|
                            asked: Seq<(Name, int, Name)>,
                            routes: Map<Name, Seq<Name>>,
                        |
                            {
                                &&& asked_can_be(
                                    self@,
                                    &*state,
                                    ran,
                                    entered.current,
                                    asked,
                                    routes,
                                )
                                &&& calls@ == ran + #[trigger] asked_entries(self@, asked)
                                &&& cursor@ == self@.moved(
                                    entered,
                                    #[trigger] self@.successors(entered.current, routes),
                                )
                            };
                        let record = StepRecord {
                            node_events: Seq::empty(),
                            applied,
                            asked,
                            outcome: outcome_view(result),
                            routes,
                        };
                        let all = records.push(record);
                        assert(all.drop_last() =~= records);
                        assert(step_made(self@, state, done, before, record));
                        assert(calls@ =~= history(self@, all));
                        records = all;
                    }
                },
            }
        }
    }
}

/// The calls that running listed nodes comes to.
pub open spec fn calls_to<N, R>(
    nodes: Seq<(String, &N)>,
    outcomes: Seq<Result<(), LangGraphError>>,
) -> Seq<Entry<N, R>> {
    Seq::new(
        nodes.len(),
        |i: int|
            Entry::Ran {
                name: nodes[i].0@,
                node: *nodes[i].1,
                outcome: outcome_view(outcomes[i]),
            },
    )
}

/// What running listed nodes comes to, by their names.
pub open spec fn applied_of<N>(
    nodes: Seq<(String, &N)>,
    outcomes: Seq<Result<(), LangGraphError>>,
) -> Seq<(Name, Result<(), ErrorView>)> {
    Seq::new(nodes.len(), |i: int| (nodes[i].0@, outcome_view(outcomes[i])))
}

/// Runs nodes, all of them, one after another.
pub fn run_nodes<S, N: Runs<S, R>, R>(
    calls: &mut Calls<N, R>,
    nodes: &Vec<(String, &N)>,
    state: &Arc<S>,
) -> (outcomes: Vec<Result<(), LangGraphError>>)
    ensures
        outcomes@.len() == nodes@.len(),
        forall|i: int|
            0 <= i < nodes@.len() ==> node_returns(
                *nodes@[i].1,
                *state,
                old(calls)@ + calls_to(nodes@, outcomes@).take(i),
                #[trigger] outcomes@[i],
            ),
        final(calls)@ == old(calls)@ + calls_to(nodes@, outcomes@),
{
    let mut outcomes: Vec<Result<(), LangGraphError>> = Vec::new();
    let mut i: usize = 0;
    let ghost done = calls@;
    assert(calls@ =~= done + calls_to(nodes@.take(0), outcomes@));
    while i < nodes.len()
        invariant
            i <= nodes@.len(),
            outcomes@.len() == i,
            done == old(calls)@,
            forall|k: int|
                0 <= k < i ==> node_returns(
                    *nodes@[k].1,
                    *state,
                    done + calls_to(nodes@.take(i as int), outcomes@).take(k),
                    #[trigger] outcomes@[k],
                ),
            calls@ == done + calls_to(nodes@.take(i as int), outcomes@),
        decreases nodes@.len() - i,
    {
        let ghost before = outcomes@;
        let outcome = calls.run(&nodes[i].0, nodes[i].1, state);
        outcomes.push(outcome);
        proof {
            lemma_calls_to_push::<N, R>(nodes@, before, outcome, i as int);
            assert(calls@ =~= done + calls_to(nodes@.take(i + 1), outcomes@));
            assert forall|k: int| 0 <= k < i + 1 implies node_returns(
                *nodes@[k].1,
                *state,
                done + calls_to(nodes@.take(i + 1), outcomes@).take(k),
                #[trigger] outcomes@[k],
            ) by {
                if k < i {
                    assert(outcomes@[k] == before[k]);
                }
            }
        }
        i += 1;
    }
    assert(nodes@.take(i as int) =~= nodes@);
    outcomes
}

/// What the calls to the first of listed nodes are, with one more of them.
pub proof fn lemma_calls_to_push<N, R>(
    nodes: Seq<(String, &N)>,
    outcomes: Seq<Result<(), LangGraphError>>,
    outcome: Result<(), LangGraphError>,
    i: int,
)
    requires
        0 <= i < nodes.len(),
        outcomes.len() == i,
    ensures
        forall|k: int|
            0 <= k < i ==> #[trigger] calls_to::<N, R>(
                nodes.take(i + 1),
                outcomes.push(outcome),
            ).take(k) == calls_to::<N, R>(nodes.take(i), outcomes).take(k),
        calls_to::<N, R>(nodes.take(i + 1), outcomes.push(outcome)).take(i) == calls_to::<N, R>(
            nodes.take(i),
            outcomes,
        ),
{
    let more = calls_to::<N, R>(nodes.take(i + 1), outcomes.push(outcome));
    let fewer = calls_to::<N, R>(nodes.take(i), outcomes);
    assert forall|k: int| 0 <= k < i implies #[trigger] more.take(k) == fewer.take(k) by {
        assert(more.take(k) =~= fewer.take(k));
    }
    assert(more.take(i) =~= fewer);
}

/// What nodes of a graph come to that were run once each.
pub proof fn lemma_ran<S, N: Runs<S, R>, R>(
    graph: GraphView<N, R>,
    state: Arc<S>,
    done: Seq<Entry<N, R>>,
    nodes: Seq<(String, &N)>,
    outcomes: Seq<Result<(), LangGraphError>>,
    set: Set<Name>,
)
    requires
        pairs(nodes, graph.nodes, set),
        outcomes.len() == nodes.len(),
        forall|i: int|
            0 <= i < nodes.len() ==> node_returns(
                *nodes[i].1,
                state,
                done + calls_to(nodes, outcomes).take(i),
                #[trigger] outcomes[i],
            ),
    ensures
        applied_can_be(graph, state, done, set, applied_of(nodes, outcomes)),
        comes_out(applied_of(nodes, outcomes), first_failure(outcomes)),
        ran_entries(graph, applied_of(nodes, outcomes)) == calls_to::<N, R>(nodes, outcomes),
{
    let order = pair_names(nodes);
    let applied = applied_of(nodes, outcomes);
    let entries = calls_to::<N, R>(nodes, outcomes);
    assert(applied_names(applied) =~= order);
    assert(ran_entries(graph, applied) =~= entries) by {
        assert forall|i: int| 0 <= i < nodes.len() implies #[trigger] ran_entries(graph, applied)[i]
            == entries[i] by {
            assert(*nodes[i].1 == graph.nodes[nodes[i].0@]);
        }
    }
    assert forall|i: int| 0 <= i < applied.len() implies node_gives(
        graph.nodes[(#[trigger] applied[i]).0],
        state,
        done + ran_entries(graph, applied.take(i)),
        applied[i].1,
    ) by {
        assert(*nodes[i].1 == graph.nodes[nodes[i].0@]);
        assert(ran_entries(graph, applied.take(i)) =~= ran_entries(graph, applied).take(i));
        assert(node_returns(*nodes[i].1, state, done + entries.take(i), outcomes[i]));
    }
    lemma_first_failure(outcomes);
    match first_failure(outcomes) {
        Ok(_) => {
            assert forall|i: int| 0 <= i < applied.len() implies (
            #[trigger] applied[i]).1 is Ok by {
                assert(outcomes[i] is Ok);
            }
        },
        Err(error) => {
            let i = choose|i: int|
                {
                    &&& 0 <= i < outcomes.len()
                    &&& outcome_view(#[trigger] outcomes[i]) == Err::<(), ErrorView>(error)
                    &&& forall|j: int| 0 <= j < i ==> #[trigger] outcomes[j] is Ok
                };
            assert(applied[i].1 == first_failure(outcomes));
            assert forall|j: int| 0 <= j < i implies (#[trigger] applied[j]).1 is Ok by {
                assert(outcomes[j] is Ok);
            }
        },
    }
}

/// Steps that a run made on nodes and routers of the library's kinds are steps
/// that such a run can make.
pub proof fn made_steps_can_be<S, N: AgentNode<S>, R: Fn(&S) -> String>(
    graph: GraphView<N, R>,
    state: Arc<S>,
    records: Seq<StepRecord>,
)
    requires
        steps_made(graph, state, records),
    ensures
        steps_can_be(graph, state, records),
    decreases records.len(),
{
    if records.len() > 0 {
        let before = records.drop_last();
        let done = history(graph, before);
        let at = graph.position(before);
        let record = records.last();
        made_steps_can_be(graph, state, before);
        let current = graph.entered(at).current;
        assert(step_made(graph, state, done, at, record));
        lemma_applied_nodes(
            graph,
            state,
            done,
            graph.runnable(current),
            record.applied,
            record.outcome,
        );
        if record.outcome is Ok {
            lemma_asked_routes(
                graph,
                &*state,
                done + ran_entries(graph, record.applied),
                current,
                record.asked,
                record.routes,
            );
        }
    }
}

/// Nodes of the library's kind, run in turn, come out as they can.
proof fn lemma_applied_nodes<S, N: AgentNode<S>, R>(
    graph: GraphView<N, R>,
    state: Arc<S>,
    done: Seq<Entry<N, R>>,
    nodes: Set<Name>,
    applied: Seq<(Name, Result<(), ErrorView>)>,
    outcome: Result<(), ErrorView>,
)
    requires
        applied_can_be(graph, state, done, nodes, applied),
        comes_out(applied, outcome),
    ensures
        nodes_can_give(graph, state, nodes, outcome),
{
    let order = applied_names(applied);
    let outcomes = Seq::new(
        applied.len(),
        |i: int|
            choose|returned: Result<(), LangGraphError>| #[trigger]
                node_returns(
                    graph.nodes[applied[i].0],
                    state,
                    done + ran_entries(graph, applied.take(i)),
                    returned,
                ) && outcome_view(returned) == applied[i].1,
    );
    assert forall|i: int| 0 <= i < applied.len() implies call_ensures(
        N::apply,
        (&graph.nodes[order[i]], state),
        #[trigger] outcomes[i],
    ) && outcome_view(outcomes[i]) == applied[i].1 by {
        let ran = done + ran_entries(graph, applied.take(i));
        assert(node_gives(graph.nodes[applied[i].0], state, ran, applied[i].1));
        runs_return_what_apply_does::<S, N, R>(
            graph.nodes[applied[i].0],
            state,
            ran,
            outcomes[i],
        );
    }
    lemma_first_failure(outcomes);
    match first_failure(outcomes) {
        Ok(_) => {
            assert forall|i: int| 0 <= i < applied.len() implies (
            #[trigger] applied[i]).1 is Ok by {
                assert(outcomes[i] is Ok);
            }
            assert(outcome is Ok);
            assert(outcome->Ok_0 == () && first_failure(outcomes)->Ok_0 == ());
        },
        Err(error) => {
            let i = choose|i: int|
                {
                    &&& 0 <= i < outcomes.len()
                    &&& outcome_view(#[trigger] outcomes[i]) == Err::<(), ErrorView>(error)
                    &&& forall|j: int| 0 <= j < i ==> #[trigger] outcomes[j] is Ok
                };
            assert(applied[i].1 is Err);
            let k = choose|k: int|
                {
                    &&& 0 <= k < applied.len()
                    &&& (#[trigger] applied[k]).1 == outcome
                    &&& forall|j: int| 0 <= j < k ==> (#[trigger] applied[j]).1 is Ok
                };
            assert(outcomes[k] is Err);
            assert(i == k);
        },
    }
    assert(outcome == first_failure(outcomes));
    assert(order.to_set() == nodes);
}

/// Asking the routers of one name, in their order.
pub open spec fn asks(name: Name, targets: Seq<Name>) -> Seq<(Name, int, Name)> {
    Seq::new(targets.len(), |i: int| (name, i, targets[i]))
}

/// Once its routers were asked too, one more name is among those whose routers
/// were.
proof fn lemma_asked_more<S, N, R: Routes<S, N>>(
    graph: GraphView<N, R>,
    state: &S,
    done: Seq<Entry<N, R>>,
    seen: Set<Name>,
    asked: Seq<(Name, int, Name)>,
    routes: Map<Name, Seq<Name>>,
    name: Name,
    list: Seq<Name>,
)
    requires
        asked_can_be(graph, state, done, seen, asked, routes),
        !seen.contains(name),
        graph.routers.dom().contains(name),
        list.len() == graph.routers[name].len(),
        forall|k: int|
            0 <= k < list.len() ==> router_gives(
                graph.routers[name][k],
                state,
                (done + asked_entries(graph, asked)) + asked_entries(
                    graph,
                    asks(name, list).take(k),
                ),
                #[trigger] list[k],
            ),
    ensures
        asked_can_be(
            graph,
            state,
            done,
            seen.insert(name),
            asked + asks(name, list),
            routes.insert(name, list),
        ),
{
    let part = asks(name, list);
    let all = asked + part;
    let more = routes.insert(name, list);
    assert forall|i: int| 0 <= i < all.len() implies {
        let (of, index, target) = #[trigger] all[i];
        &&& seen.insert(name).contains(of)
        &&& graph.routers.dom().contains(of)
        &&& 0 <= index < graph.routers[of].len()
        &&& more[of][index] == target
        &&& router_gives(
            graph.routers[of][index],
            state,
            done + asked_entries(graph, all.take(i)),
            target,
        )
    } by {
        if i < asked.len() {
            assert(all[i] == asked[i]);
            assert(all.take(i) =~= asked.take(i));
        } else {
            let k = i - asked.len();
            assert(all[i] == part[k]);
            assert(all.take(i) =~= asked + part.take(k));
            assert(done + asked_entries(graph, all.take(i)) =~= (done + asked_entries(
                graph,
                asked,
            )) + asked_entries(graph, part.take(k)));
            assert(list[k] == part[k].2);
        }
    }
    assert forall|i: int, j: int| 0 <= i < j < all.len() implies !((#[trigger] all[i]).0 == (
    #[trigger] all[j]).0 && all[i].1 == all[j].1) by {
        if j < asked.len() {
            assert(all[i] == asked[i] && all[j] == asked[j]);
        } else if i < asked.len() {
            assert(all[i] == asked[i]);
            assert(seen.contains(asked[i].0));
        }
    }
    assert forall|of: Name|
        seen.insert(name).contains(of) && #[trigger] graph.routers.dom().contains(of) implies {
        &&& more[of].len() == graph.routers[of].len()
        &&& forall|index: int|
            0 <= index < graph.routers[of].len() ==> was_asked(
                all,
                of,
                index,
                #[trigger] more[of][index],
            )
    } by {
        assert forall|index: int| 0 <= index < graph.routers[of].len() implies was_asked(
            all,
            of,
            index,
            #[trigger] more[of][index],
        ) by {
            if of == name {
                assert(all[asked.len() + index] == (of, index, list[index]));
            } else {
                assert(was_asked(asked, of, index, routes[of][index]));
                let i = asked.index_of((of, index, routes[of][index]));
                assert(all[i] == asked[i]);
            }
        }
    }
}

/// A name without routers changes nothing.
proof fn lemma_asked_no_more<S, N, R: Routes<S, N>>(
    graph: GraphView<N, R>,
    state: &S,
    done: Seq<Entry<N, R>>,
    seen: Set<Name>,
    asked: Seq<(Name, int, Name)>,
    routes: Map<Name, Seq<Name>>,
    name: Name,
)
    requires
        asked_can_be(graph, state, done, seen, asked, routes),
        !graph.routers.dom().contains(name),
    ensures
        asked_can_be(graph, state, done, seen.insert(name), asked, routes),
{
}

/// Routers that are functions, asked in turn, return what they can.
proof fn lemma_asked_routes<S, N, R: Fn(&S) -> String>(
    graph: GraphView<N, R>,
    state: &S,
    done: Seq<Entry<N, R>>,
    current: Set<Name>,
    asked: Seq<(Name, int, Name)>,
    routes: Map<Name, Seq<Name>>,
)
    requires
        asked_can_be(graph, state, done, current, asked, routes),
    ensures
        routes_can_be(graph, state, current, routes),
{
    assert forall|name: Name|
        current.contains(name) && graph.routers.dom().contains(name) implies routers_can_give(
        graph.routers[name],
        state,
        #[trigger] routes[name],
    ) by {
        assert forall|i: int| 0 <= i < graph.routers[name].len() implies router_can_give(
            graph.routers[name][i],
            state,
            #[trigger] routes[name][i],
        ) by {
            assert(was_asked(asked, name, i, routes[name][i]));
            let j = asked.index_of((name, i, routes[name][i]));
            assert(asked[j] == (name, i, routes[name][i]));
            routes_return_what_functions_do::<S, N, R>(
                graph.routers[name][i],
                state,
                done + asked_entries(graph, asked.take(j)),
                routes[name][i],
            );
        }
    }
}

/// The routes of names are those that a map of lists holds, in their order.
pub proof fn routes_are_seen_as_they_are(
    routes: Map<Name, Vec<String>>,
    name: Name,
    i: int,
)
    requires
        routes.dom().contains(name),
        0 <= i < routes[name]@.len(),
    ensures
        routes_view(routes).dom().contains(name),
        routes_view(routes)[name].len() == routes[name]@.len(),
        routes_view(routes)[name][i] == routes[name]@[i]@,
{
}

/// Every router of a name that is asked returns a target of its own: one that it
/// can return on the state.
pub proof fn each_router_returns_its_target<S, N, R: Fn(&S) -> String>(
    graph: GraphView<N, R>,
    state: &S,
    current: Set<Name>,
    routes: Map<Name, Seq<Name>>,
    name: Name,
    i: int,
)
    requires
        routes_can_be(graph, state, current, routes),
        current.contains(name),
        graph.routers.dom().contains(name),
        0 <= i < graph.routers[name].len(),
    ensures
        routes[name].len() == graph.routers[name].len(),
        exists|returned: String| #[trigger]
            call_ensures(graph.routers[name][i], (state,), returned) && returned@
                == routes[name][i],
{
    assert(routers_can_give(graph.routers[name], state, routes[name]));
    assert(router_can_give(graph.routers[name][i], state, routes[name][i]));
}

} // verus!

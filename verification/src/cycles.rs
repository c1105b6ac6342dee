//! Circles of static edges.
//!
//! A graph without them can be cut into layers: its names can be listed so that
//! each comes after all of its targets. In a graph with them, some names can
//! never be listed so.

use vstd::prelude::*;
use vstd::set_lib::lemma_len_subset;

use crate::error::ErrorView;
use crate::execution::StepRecord;
use crate::laws::static_only;
use crate::model::GraphView;
use crate::names::Name;

verus! {

impl<N, R> GraphView<N, R> {
    /// Whether each target of `from` is in `cleared` or has no static edges.
    pub open spec fn leads_into(self, from: Name, cleared: Set<Name>) -> bool {
        forall|target: Name| #[trigger]
            self.static_edge(from, target) && self.edges.dom().contains(target)
                ==> cleared.contains(target)
    }

    /// Whether each name of `order` comes after all of its targets that have
    /// static edges.
    pub open spec fn layered(self, order: Seq<Name>) -> bool {
        forall|i: int|
            0 <= i < order.len() ==> self.leads_into(#[trigger] order[i], order.take(i).to_set())
    }

    /// A walk that starts at `from`, follows static edges and stays outside of
    /// `cleared` for as long as it can.
    pub open spec fn wander(self, cleared: Set<Name>, from: Name, steps: nat) -> Name
        decreases steps,
    {
        if steps == 0 {
            from
        } else {
            let here = self.wander(cleared, from, (steps - 1) as nat);
            choose|target: Name| #[trigger]
                self.static_edge(here, target) && self.edges.dom().contains(target)
                    && !cleared.contains(target)
        }
    }
}

/// A name whose targets are listed can be listed next.
pub proof fn lemma_layered_push<N, R>(graph: GraphView<N, R>, order: Seq<Name>, name: Name)
    requires
        graph.layered(order),
        graph.leads_into(name, order.to_set()),
    ensures
        graph.layered(order.push(name)),
{
    let more = order.push(name);
    assert forall|i: int| 0 <= i < more.len() implies graph.leads_into(
        #[trigger] more[i],
        more.take(i).to_set(),
    ) by {
        assert(more.take(i) =~= order.take(i));
        if i < order.len() {
            assert(more[i] == order[i]);
        } else {
            assert(order.take(i) =~= order);
        }
    }
}

/// If all names with static edges can be listed after their targets, no static
/// edges lead in a circle.
pub proof fn lemma_layers_hold_no_cycle<N, R>(
    graph: GraphView<N, R>,
    order: Seq<Name>,
    way: Seq<Name>,
)
    requires
        order.no_duplicates(),
        graph.layered(order),
        order.to_set() == graph.edges.dom(),
    ensures
        !graph.static_cycle(way),
{
    if graph.static_cycle(way) {
        lemma_ranks_fall(graph, order, way, way.len() - 1);
    }
}

/// Along a circle of static edges, names stand ever earlier in the list.
proof fn lemma_ranks_fall<N, R>(
    graph: GraphView<N, R>,
    order: Seq<Name>,
    way: Seq<Name>,
    k: int,
)
    requires
        order.no_duplicates(),
        graph.layered(order),
        order.to_set() == graph.edges.dom(),
        graph.static_cycle(way),
        0 <= k < way.len(),
    ensures
        order.contains(way[k]),
        order.index_of(way[k]) <= order.index_of(way[0]) - k,
    decreases k,
{
    if k == 0 {
        assert(graph.static_edge(way[0], way[1]));
        assert(order.to_set().contains(way[0]));
    } else {
        lemma_ranks_fall(graph, order, way, k - 1);
        assert(graph.static_edge(way[k - 1], way[k]));
        if k < way.len() - 1 {
            assert(graph.static_edge(way[k], way[k + 1]));
        } else {
            assert(graph.static_edge(way[0], way[1]));
        }
        assert(graph.edges.dom().contains(way[k]));
        assert(order.to_set().contains(way[k]));
        let i = order.index_of(way[k - 1]);
        assert(graph.leads_into(order[i], order.take(i).to_set()));
        assert(order.take(i).contains(way[k]));
        let j = order.take(i).index_of(way[k]);
        assert(order[j] == way[k]);
        assert(order.index_of(way[k]) == j);
    }
}

/// A walk that can go on from every name outside of `cleared` goes on.
proof fn lemma_wander<N, R>(
    graph: GraphView<N, R>,
    cleared: Set<Name>,
    from: Name,
    steps: nat,
)
    requires
        graph.edges.dom().contains(from) && !cleared.contains(from),
        forall|name: Name| #[trigger]
            graph.edges.dom().contains(name) && !cleared.contains(name) ==> !graph.leads_into(
                name,
                cleared,
            ),
    ensures
        graph.edges.dom().contains(graph.wander(cleared, from, steps)),
        !cleared.contains(graph.wander(cleared, from, steps)),
        steps > 0 ==> graph.static_edge(
            graph.wander(cleared, from, (steps - 1) as nat),
            graph.wander(cleared, from, steps),
        ),
    decreases steps,
{
    if steps > 0 {
        lemma_wander(graph, cleared, from, (steps - 1) as nat);
        let here = graph.wander(cleared, from, (steps - 1) as nat);
        assert(!graph.leads_into(here, cleared));
    }
}

/// If names are left that are not in `cleared`, and each of them has a target
/// that is left too, static edges lead in a circle.
pub proof fn lemma_stuck_names_hold_a_cycle<N, R>(graph: GraphView<N, R>, cleared: Set<Name>)
    requires
        graph.edges.dom().finite(),
        cleared.subset_of(graph.edges.dom()),
        cleared != graph.edges.dom(),
        forall|name: Name| #[trigger]
            graph.edges.dom().contains(name) && !cleared.contains(name) ==> !graph.leads_into(
                name,
                cleared,
            ),
    ensures
        exists|way: Seq<Name>| #[trigger] graph.static_cycle(way),
{
    let sources = graph.edges.dom();
    let from = choose|name: Name| #[trigger] sources.contains(name) && !cleared.contains(name);
    assert(sources.contains(from) && !cleared.contains(from)) by {
        if forall|name: Name| #[trigger] sources.contains(name) ==> cleared.contains(name) {
            assert(cleared =~= sources);
        }
    }
    let walk = Seq::new(sources.len() + 1, |i: int| graph.wander(cleared, from, i as nat));
    assert forall|i: int| 0 <= i < walk.len() implies sources.contains(#[trigger] walk[i]) by {
        lemma_wander(graph, cleared, from, i as nat);
    }
    assert(!walk.no_duplicates()) by {
        if walk.no_duplicates() {
            walk.unique_seq_to_set();
            assert(walk.to_set().subset_of(sources));
            lemma_len_subset(walk.to_set(), sources);
        }
    }
    let (a, b) = choose|a: int, b: int|
        0 <= a < walk.len() && 0 <= b < walk.len() && a != b && #[trigger] walk[a]
            == #[trigger] walk[b];
    let (first, last) = if a < b {
        (a, b)
    } else {
        (b, a)
    };
    let way = walk.subrange(first, last + 1);
    assert forall|i: int| 0 <= i < way.len() - 1 implies graph.static_edge(
        #[trigger] way[i],
        way[i + 1],
    ) by {
        lemma_wander(graph, cleared, from, (first + i + 1) as nat);
        assert(way[i] == walk[first + i]);
        assert(way[i + 1] == walk[first + i + 1]);
    }
    assert(graph.static_cycle(way));
}

/// A valid graph whose steps are not limited has no circle of static edges.
pub proof fn unlimited_graphs_are_acyclic<N, R>(graph: GraphView<N, R>, way: Seq<Name>)
    requires
        graph.valid(),
        graph.max_steps == usize::MAX,
    ensures
        !graph.static_cycle(way),
{
}

/// Whether `way` follows static edges.
pub open spec fn trail<N, R>(graph: GraphView<N, R>, way: Seq<Name>) -> bool {
    forall|i: int| 0 <= i < way.len() - 1 ==> graph.static_edge(#[trigger] way[i], way[i + 1])
}

/// Along static edges, a run comes to a name after as many steps by a way of as
/// many edges.
proof fn lemma_way_to<N, R>(
    graph: GraphView<N, R>,
    records: Seq<StepRecord>,
    name: Name,
) -> (way: Seq<Name>)
    requires
        static_only(graph),
        graph.position(records).current.contains(name),
    ensures
        way.len() == records.len() + 1,
        way.last() == name,
        trail(graph, way),
    decreases records.len(),
{
    if records.len() == 0 {
        seq![name]
    } else {
        let current = graph.entered(graph.position(records.drop_last())).current;
        let routes = records.last().routes;
        let from = choose|from: Name| #[trigger]
            current.contains(from) && graph.leads_to(from, routes, name);
        let before = lemma_way_to(graph, records.drop_last(), from);
        let way = before.push(name);
        assert forall|i: int| 0 <= i < way.len() - 1 implies graph.static_edge(
            #[trigger] way[i],
            way[i + 1],
        ) by {
            if i < before.len() - 1 {
                assert(graph.static_edge(before[i], before[i + 1]));
            }
        }
        way
    }
}

/// A run of a valid graph with static edges only comes to an end by itself, if
/// its steps are not limited: it takes one step more, at most, than there are
/// names with edges.
pub proof fn unlimited_static_runs_end<N, R>(
    graph: GraphView<N, R>,
    records: Seq<StepRecord>,
    result: Result<(), ErrorView>,
)
    requires
        graph.valid(),
        graph.max_steps == usize::MAX,
        graph.edges.dom().finite(),
        static_only(graph),
        graph.stream_run(records) || graph.batch_run(records, result),
    ensures
        records.len() <= graph.edges.dom().len() + 1,
{
    let sources = graph.edges.dom();
    if records.len() > sources.len() + 1 {
        let before = records.drop_last();
        let at = graph.position(before);
        assert(!graph.drained(at));
        let name = choose|name: Name| graph.entered(at).current.contains(name);
        assert(graph.entered(at).current.contains(name)) by {
            if forall|other: Name| !graph.entered(at).current.contains(other) {
                assert(graph.entered(at).current =~= Set::<Name>::empty());
            }
        }
        let way = lemma_way_to(graph, before, name);
        let walk = way.drop_last();
        assert forall|i: int| 0 <= i < walk.len() implies sources.contains(#[trigger] walk[i]) by {
            assert(graph.static_edge(way[i], way[i + 1]));
        }
        if walk.no_duplicates() {
            walk.unique_seq_to_set();
            assert(walk.to_set().subset_of(sources));
            lemma_len_subset(walk.to_set(), sources);
        } else {
            let (a, b) = choose|a: int, b: int|
                0 <= a < walk.len() && 0 <= b < walk.len() && a != b && #[trigger] walk[a]
                    == #[trigger] walk[b];
            let (first, last) = if a < b {
                (a, b)
            } else {
                (b, a)
            };
            let circle = walk.subrange(first, last + 1);
            assert forall|i: int| 0 <= i < circle.len() - 1 implies graph.static_edge(
                #[trigger] circle[i],
                circle[i + 1],
            ) by {
                assert(graph.static_edge(way[first + i], way[first + i + 1]));
            }
            assert(graph.static_cycle(circle));
        }
    }
}

} // verus!

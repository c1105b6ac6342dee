//! The calls that a run makes to nodes and routers, in their order.
//!
//! Nodes and routers meet in a state whose contents no contract can see. What
//! contracts can say is which calls are made, how often, and which come before
//! which. A run keeps a [`Calls`], through which alone it can reach nodes and
//! routers: each call is added to it, and each call is made in view of all that
//! were made before.

use std::sync::Arc;

use vstd::prelude::*;

use crate::agent_node::AgentNode;
use crate::error::{outcome_view, ErrorView, LangGraphError};
use crate::names::Name;

verus! {

/// A call that a run made.
pub ghost enum Entry<N, R> {
    /// A node was run, and came out so.
    Ran { name: Name, node: N, outcome: Result<(), ErrorView> },
    /// The router at a position among those of a name was asked, and returned
    /// the target.
    Asked { name: Name, index: int, router: R, target: Name },
}

/// The calls that a run has made so far.
#[verifier::reject_recursive_types(N)]
#[verifier::reject_recursive_types(R)]
pub struct Calls<N, R> {
    history: Ghost<Seq<Entry<N, R>>>,
}

impl<N, R> View for Calls<N, R> {
    type V = Seq<Entry<N, R>>;

    closed spec fn view(&self) -> Seq<Entry<N, R>> {
        self.history@
    }
}

/// The right to make one call, after those that a run has made. Only a
/// [`Calls`] gives it, and then adds the call.
#[verifier::reject_recursive_types(N)]
#[verifier::reject_recursive_types(R)]
pub struct Pass<N, R> {
    history: Ghost<Seq<Entry<N, R>>>,
}

impl<N, R> View for Pass<N, R> {
    type V = Seq<Entry<N, R>>;

    closed spec fn view(&self) -> Seq<Entry<N, R>> {
        self.history@
    }
}

/// A node that a run can reach.
pub trait Runs<S, R>: Sized {
    /// Runs the node.
    fn run(&self, state: Arc<S>, pass: &Pass<Self, R>) -> Result<(), LangGraphError>;
}

impl<S, R, N: AgentNode<S>> Runs<S, R> for N {
    fn run(&self, state: Arc<S>, pass: &Pass<Self, R>) -> (outcome: Result<(), LangGraphError>)
        ensures
            call_ensures(N::apply, (self, state), outcome),
    {
        self.apply(state)
    }
}

/// A router that a run can reach.
pub trait Routes<S, N>: Sized {
    /// Whether the router can be asked on `state`.
    spec fn ready(&self, state: &S) -> bool;

    /// Asks the router.
    fn route(&self, state: &S, pass: &Pass<N, Self>) -> (target: String)
        requires
            self.ready(state),
    ;
}

impl<S, N, F: Fn(&S) -> String> Routes<S, N> for F {
    open spec fn ready(&self, state: &S) -> bool {
        call_requires(*self, (state,))
    }

    fn route(&self, state: &S, pass: &Pass<N, Self>) -> (target: String)
        ensures
            call_ensures(*self, (state,), target),
    {
        self(state)
    }
}

/// Whether a node can return `returned` on `state`, run once the calls `done`,
/// and no others, were made.
pub open spec fn node_returns<S, N: Runs<S, R>, R>(
    node: N,
    state: Arc<S>,
    done: Seq<Entry<N, R>>,
    returned: Result<(), LangGraphError>,
) -> bool {
    exists|pass: Pass<N, R>| #[trigger]
        call_ensures(N::run, (&node, state, &pass), returned) && pass@ == done
}

/// Whether a node can come out as `outcome` on `state`, run once the calls
/// `done` were made.
pub open spec fn node_gives<S, N: Runs<S, R>, R>(
    node: N,
    state: Arc<S>,
    done: Seq<Entry<N, R>>,
    outcome: Result<(), ErrorView>,
) -> bool {
    exists|returned: Result<(), LangGraphError>| #[trigger]
        node_returns(node, state, done, returned) && outcome_view(returned) == outcome
}

/// Whether a router can return `target` on `state`, asked once the calls `done`,
/// and no others, were made.
pub open spec fn router_gives<S, N, R: Routes<S, N>>(
    router: R,
    state: &S,
    done: Seq<Entry<N, R>>,
    target: Name,
) -> bool {
    exists|pass: Pass<N, R>, returned: String| #[trigger]
        call_ensures(R::route, (&router, state, &pass), returned) && pass@ == done && returned@
            == target
}

impl<N, R> Calls<N, R> {
    /// No calls, for a run of nodes that work on a state of type `S`.
    pub fn start<S>() -> (calls: Self) where N: AgentNode<S>
        ensures
            calls@ == Seq::<Entry<N, R>>::empty(),
    {
        Calls { history: Ghost(Seq::empty()) }
    }

    /// No calls, to ask routers on a state of type `S` apart from a run.
    pub fn apart<S>() -> (calls: Self) where R: Fn(&S) -> String
        ensures
            calls@ == Seq::<Entry<N, R>>::empty(),
    {
        Calls { history: Ghost(Seq::empty()) }
    }

    /// Runs a node.
    pub fn run<S>(&mut self, name: &String, node: &N, state: &Arc<S>) -> (outcome: Result<
        (),
        LangGraphError,
    >) where N: Runs<S, R>
        ensures
            node_returns(*node, *state, old(self)@, outcome),
            final(self)@ == old(self)@.push(
                (Entry::Ran { name: name@, node: *node, outcome: outcome_view(outcome) }),
            ),
    {
        let pass = Pass { history: Ghost(self.history@) };
        let outcome = node.run(Arc::clone(state), &pass);
        proof {
            assert(call_ensures(N::run, (node, *state, &pass), outcome));
            self.history@ = self.history@.push(
                Entry::Ran { name: name@, node: *node, outcome: outcome_view(outcome) },
            );
        }
        outcome
    }

    /// Asks a router, the one at position `index` among those of `name`.
    pub fn ask<S>(&mut self, name: &String, index: usize, router: &R, state: &S) -> (target:
        String) where R: Routes<S, N>
        requires
            router.ready(state),
        ensures
            router_gives(*router, state, old(self)@, target@),
            final(self)@ == old(self)@.push(
                (Entry::Asked {
                    name: name@,
                    index: index as int,
                    router: *router,
                    target: target@,
                }),
            ),
    {
        let pass = Pass { history: Ghost(self.history@) };
        let target = router.route(state, &pass);
        proof {
            assert(call_ensures(R::route, (router, state, &pass), target));
            self.history@ = self.history@.push(
                Entry::Asked {
                    name: name@,
                    index: index as int,
                    router: *router,
                    target: target@,
                },
            );
        }
        target
    }
}

/// What a node can return when a run reaches it is what its `apply` can return.
pub proof fn runs_return_what_apply_does<S, N: AgentNode<S>, R>(
    node: N,
    state: Arc<S>,
    done: Seq<Entry<N, R>>,
    returned: Result<(), LangGraphError>,
)
    requires
        node_returns(node, state, done, returned),
    ensures
        call_ensures(N::apply, (&node, state), returned),
{
    let pass = choose|pass: Pass<N, R>| #[trigger]
        call_ensures(<N as Runs<S, R>>::run, (&node, state, &pass), returned) && pass@ == done;
    assert(call_ensures(N::apply, (&node, state), returned));
}

/// What a function can return when a run asks it as a router is what it can
/// return.
pub proof fn routes_return_what_functions_do<S, N, R: Fn(&S) -> String>(
    router: R,
    state: &S,
    done: Seq<Entry<N, R>>,
    target: Name,
)
    requires
        router_gives(router, state, done, target),
    ensures
        exists|returned: String| #[trigger]
            call_ensures(router, (state,), returned) && returned@ == target,
{
    let (pass, returned) = choose|pass: Pass<N, R>, returned: String| #[trigger]
        call_ensures(<R as Routes<S, N>>::route, (&router, state, &pass), returned) && pass@
            == done && returned@ == target;
    assert(call_ensures(router, (state,), returned));
}

/// A node that a run reached came out as it returned, and a router that it asked
/// gave what it returned, each with a pass that holds exactly the calls that were
/// made before.
pub proof fn calls_are_made_in_view_of_those_before<S, N: Runs<S, R>, R: Routes<S, N>>(
    node: N,
    router: R,
    state: Arc<S>,
    done: Seq<Entry<N, R>>,
    outcome: Result<(), ErrorView>,
    target: Name,
)
    ensures
        node_gives(node, state, done, outcome) ==> exists|
            pass: Pass<N, R>,
            returned: Result<(), LangGraphError>,
        |
            {
                &&& #[trigger] call_ensures(N::run, (&node, state, &pass), returned)
                &&& pass@ == done
                &&& outcome_view(returned) == outcome
            },
        router_gives(router, &*state, done, target) ==> exists|
            pass: Pass<N, R>,
            returned: String,
        |
            {
                &&& #[trigger] call_ensures(R::route, (&router, &*state, &pass), returned)
                &&& pass@ == done
                &&& returned@ == target
            },
{
    if node_gives(node, state, done, outcome) {
        let returned = choose|returned: Result<(), LangGraphError>| #[trigger]
            node_returns(node, state, done, returned) && outcome_view(returned) == outcome;
        let pass = choose|pass: Pass<N, R>| #[trigger]
            call_ensures(N::run, (&node, state, &pass), returned) && pass@ == done;
        assert(call_ensures(N::run, (&node, state, &pass), returned));
    }
}

} // verus!

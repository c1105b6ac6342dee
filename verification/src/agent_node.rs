//! The units of work of a workflow.

use std::sync::Arc;

use vstd::prelude::*;

use crate::error::LangGraphError;

verus! {

/// A node of a workflow graph, which works on a shared state of type `S`.
///
/// Nodes of one step are independent of each other: a runner may run them one
/// after another or at the same time.
pub trait AgentNode<S> {
    /// Does the node's work. An error stops the run.
    fn apply(&self, state: Arc<S>) -> Result<(), LangGraphError>;
}

} // verus!

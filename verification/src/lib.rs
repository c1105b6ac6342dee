//! A workflow engine: graphs of nodes that work on a shared state.
//!
//! A graph is built with a [`StateGraphBuilder`]: nodes, static edges to fixed
//! targets, and conditional edges, whose routers choose the targets from the
//! state. [`compile`](StateGraphBuilder::compile) holds it against the rules of
//! [`graph_validator`] and makes it a [`StateGraph`], which can run any number
//! of times:
//!
//! - as a batch, with [`invoke`](StateGraph::invoke), for its result;
//! - as a stream, with [`stream`](StateGraph::stream), for the log of its
//!   events.
//!
//! Both take the same steps: the nodes among the current names run, then the
//! edges of all current names lead to those of the next step. [`execution`]
//! says what a step does and what a run makes of it. [`conduct`] says the same of
//! what goes in and what comes out alone, as [`validity`] does of the rules that
//! graphs keep. [`laws`] says what follows for every graph and every run, and
//! [`agreement`] when two runs come out the same.
//!
//! A run reaches its nodes and routers through [`calls`], which keeps the order
//! of the calls: in each step, routers are asked once all nodes were run.
//!
//! A runner that runs the nodes of a step at the same time, or that hands out
//! events while the run goes on, can be put together from the parts that the
//! two runners here are made of: [`StateGraph::begin`],
//! [`StateGraph::batch_enter`] and [`StateGraph::batch_leave`] for batches,
//! [`StateGraph::stream_enter`] and [`StateGraph::stream_leave`] for streams.

pub mod agent_node;
pub mod agent_state;
pub mod agreement;
pub mod calls;
pub mod conduct;
pub mod cycles;
pub mod error;
pub mod execution;
pub mod graph_validator;
pub mod laws;
pub mod model;
pub mod names;
pub mod state_graph;
pub mod state_graph_builder;
pub mod state_graph_stream;
pub mod text;
pub mod validity;

pub use agent_node::AgentNode;
pub use agent_state::DefaultMemoryState;
pub use error::LangGraphError;
pub use names::{NameMap, NameSet};
pub use state_graph::StateGraph;
pub use state_graph_builder::{StateGraphBuilder, END_NODE, START_NODE};
pub use state_graph_stream::StreamEvent;

//! Batch runs, the rules of graphs and the built-in memory.

use std::sync::{Arc, Mutex};
use std::time::Duration;

use langgraph4rust::agent_state::decoded;
use langgraph4rust::{AgentNode, DefaultMemoryState, LangGraphError, NameSet, StateGraphBuilder};

/// A memory that nodes and routers can share.
struct MemoryState {
    memory: Mutex<DefaultMemoryState>,
}

impl MemoryState {
    fn new() -> Self {
        MemoryState { memory: Mutex::new(DefaultMemoryState::new()) }
    }

    fn get<T: serde::de::DeserializeOwned>(&self, key: &str) -> Result<Option<T>, LangGraphError> {
        decoded(self.memory.lock().unwrap().get(key).map(serde_json::from_value))
    }

    fn set<T: serde::Serialize>(&self, key: &str, value: T) -> Result<bool, LangGraphError> {
        self.memory.lock().unwrap().set(key, serde_json::to_value(value))
    }
}

/// A node of any kind.
struct Node<S>(Box<dyn AgentNode<S>>);

impl<S> AgentNode<S> for Node<S> {
    fn apply(&self, state: Arc<S>) -> Result<(), LangGraphError> {
        self.0.apply(state)
    }
}

type Router<S> = Box<dyn Fn(&S) -> String>;

type Builder<S> = StateGraphBuilder<Node<S>, Router<S>>;

fn node<S>(node: impl AgentNode<S> + 'static) -> Node<S> {
    Node(Box::new(node))
}

fn name_set(names: Vec<String>) -> NameSet {
    NameSet::from_vec(names)
}

fn pause(ms: u64) {
    let runtime = tokio::runtime::Builder::new_current_thread().enable_time().build().unwrap();
    runtime.block_on(async move { tokio::time::sleep(Duration::from_millis(ms)).await });
}

#[derive(Debug, Clone)]
struct CounterNode;
impl AgentNode<MemoryState> for CounterNode {
    fn apply(&self, state: Arc<MemoryState>) -> Result<(), LangGraphError> {
        let count: i32 = state.get("count").unwrap_or(None).unwrap_or(0);
        state.set("count", count + 1)?;
        Ok(())
    }
}

#[derive(Debug, Clone)]
struct MessageNode {
    message: String,
}
impl AgentNode<MemoryState> for MessageNode {
    fn apply(&self, state: Arc<MemoryState>) -> Result<(), LangGraphError> {
        state.set("message", self.message.clone())?;
        Ok(())
    }
}

#[derive(Debug, Clone)]
struct FailingNode;
impl AgentNode<MemoryState> for FailingNode {
    fn apply(&self, _state: Arc<MemoryState>) -> Result<(), LangGraphError> {
        Err(LangGraphError::NodeError("Intentional failure".to_string()))
    }
}

#[derive(Debug, Clone)]
struct SlowNode;
impl AgentNode<MemoryState> for SlowNode {
    fn apply(&self, state: Arc<MemoryState>) -> Result<(), LangGraphError> {
        pause(100);
        let count: i32 = state.get("slow_count").unwrap_or(None).unwrap_or(0);
        state.set("slow_count", count + 1)?;
        Ok(())
    }
}

#[test]
fn test_simple_linear_workflow() -> Result<(), LangGraphError> {
    let mut builder = Builder::<MemoryState>::new();
    builder.add_node("counter", node(CounterNode));
    builder.add_edge("__start__", name_set(vec!["counter".to_string()]));
    builder.add_edge("counter", name_set(vec!["__end__".to_string()]));
    let graph = builder.compile()?;

    let state = Arc::new(MemoryState::new());
    graph.invoke(state.clone())?;

    let count: i32 = state.get("count")?.unwrap();
    assert_eq!(count, 1, "Counter should be incremented once");

    Ok(())
}

#[test]
fn test_multi_step_workflow() -> Result<(), LangGraphError> {
    let mut builder = Builder::<MemoryState>::new();
    builder.add_node("counter1", node(CounterNode));
    builder.add_node("counter2", node(CounterNode));
    builder.add_edge("__start__", name_set(vec!["counter1".to_string()]));
    builder.add_edge("counter1", name_set(vec!["counter2".to_string()]));
    builder.add_edge("counter2", name_set(vec!["__end__".to_string()]));
    let graph = builder.compile()?;

    let state = Arc::new(MemoryState::new());
    graph.invoke(state.clone())?;

    let count: i32 = state.get("count")?.unwrap();
    assert_eq!(count, 2, "Counter should be incremented twice");

    Ok(())
}

#[test]
fn test_parallel_execution() -> Result<(), LangGraphError> {
    let mut builder = Builder::<MemoryState>::new();
    builder.add_node("node1", node(MessageNode { message: "hello".to_string() }));
    builder.add_node("node2", node(CounterNode));
    builder.add_edge("__start__", name_set(vec!["node1".to_string(), "node2".to_string()]));
    builder.add_edge("node1", name_set(vec!["__end__".to_string()]));
    builder.add_edge("node2", name_set(vec!["__end__".to_string()]));
    let graph = builder.compile()?;

    let state = Arc::new(MemoryState::new());
    graph.invoke(state.clone())?;

    let message: String = state.get("message")?.unwrap();
    let count: i32 = state.get("count")?.unwrap();

    assert_eq!(message, "hello", "Message should be set");
    assert_eq!(count, 1, "Counter should be incremented");

    Ok(())
}

#[test]
fn test_empty_graph_validation() {
    let result = Builder::<MemoryState>::new().compile();

    assert!(
        matches!(result, Err(LangGraphError::GraphError(msg)) if msg.contains("at least one node")),
        "Empty graph should fail validation"
    );
}

#[test]
fn test_start_node_without_edges() {
    let mut builder = Builder::<MemoryState>::new();
    builder.add_node("node", node(CounterNode));
    let result = builder.compile();

    assert!(
        matches!(result, Err(LangGraphError::GraphError(msg)) if msg.contains("outgoing edge")),
        "Start node without edges should fail validation"
    );
}

#[test]
fn test_invalid_edge_target() {
    let mut builder = Builder::<MemoryState>::new();
    builder.add_node("node", node(CounterNode));
    builder.add_edge("__start__", name_set(vec!["nonexistent".to_string()]));
    let result = builder.compile();

    assert!(
        matches!(result, Err(LangGraphError::GraphError(msg)) if msg.contains("not a registered node")),
        "Invalid edge target should fail validation"
    );
}

#[test]
fn test_node_failure() -> Result<(), LangGraphError> {
    let mut builder = Builder::<MemoryState>::new();
    builder.add_node("failing", node(FailingNode));
    builder.add_edge("__start__", name_set(vec!["failing".to_string()]));
    builder.add_edge("failing", name_set(vec!["__end__".to_string()]));
    let graph = builder.compile()?;

    let state = Arc::new(MemoryState::new());
    let result = graph.invoke(state);

    assert!(
        matches!(result, Err(LangGraphError::NodeError(msg)) if msg.contains("Intentional failure")),
        "Node failure should propagate error"
    );

    Ok(())
}

#[test]
fn test_state_persistence() -> Result<(), LangGraphError> {
    let mut builder = Builder::<MemoryState>::new();
    builder.add_node("counter", node(CounterNode));
    builder.add_edge("__start__", name_set(vec!["counter".to_string()]));
    builder.add_edge("counter", name_set(vec!["__end__".to_string()]));
    let graph = builder.compile()?;

    let state = Arc::new(MemoryState::new());

    graph.invoke(state.clone())?;
    let count1: i32 = state.get("count")?.unwrap();
    assert_eq!(count1, 1);

    graph.invoke(state.clone())?;
    let count2: i32 = state.get("count")?.unwrap();
    assert_eq!(count2, 2);

    Ok(())
}

#[test]
fn test_custom_start_end_nodes() -> Result<(), LangGraphError> {
    let mut builder = Builder::<MemoryState>::new();
    builder.set_start_node("begin");
    builder.set_end_node("finish");
    builder.add_node("middle", node(CounterNode));
    builder.add_edge("begin", name_set(vec!["middle".to_string()]));
    builder.add_edge("middle", name_set(vec!["finish".to_string()]));
    let graph = builder.compile()?;

    let state = Arc::new(MemoryState::new());
    graph.invoke(state.clone())?;

    let count: i32 = state.get("count")?.unwrap();
    assert_eq!(count, 1, "Only middle node should execute (start/end are virtual)");

    Ok(())
}

#[test]
fn test_state_get_nonexistent_key() -> Result<(), LangGraphError> {
    let state = Arc::new(MemoryState::new());

    let result: Option<String> = state.get("nonexistent")?;
    assert!(result.is_none(), "Getting non-existent key should return None");

    Ok(())
}

#[test]
fn test_state_set_get_roundtrip() -> Result<(), LangGraphError> {
    let state = Arc::new(MemoryState::new());

    state.set("string_key", "hello world")?;
    state.set("int_key", 42)?;
    state.set("float_key", 3.14)?;

    let string_val: String = state.get("string_key")?.unwrap();
    let int_val: i32 = state.get("int_key")?.unwrap();
    let float_val: f64 = state.get("float_key")?.unwrap();

    assert_eq!(string_val, "hello world");
    assert_eq!(int_val, 42);
    assert!((float_val - 3.14).abs() < 0.001);

    Ok(())
}

#[test]
fn test_max_steps_limit() -> Result<(), LangGraphError> {
    let mut builder = Builder::<MemoryState>::new();
    builder.add_node("counter", node(CounterNode));
    builder.add_edge("__start__", name_set(vec!["counter".to_string()]));
    builder.add_edge("counter", name_set(vec!["counter".to_string()]));
    builder.set_max_steps(5);
    let graph = builder.compile()?;

    let state = Arc::new(MemoryState::new());
    graph.invoke(state.clone())?;

    let count: i32 = state.get("count")?.unwrap();
    assert_eq!(count, 4, "Should stop after max steps (start node skipped)");

    Ok(())
}

#[test]
fn test_invalid_edge_source() {
    let mut builder = Builder::<MemoryState>::new();
    builder.add_node("node", node(CounterNode));
    builder.add_edge("__start__", name_set(vec!["node".to_string()]));
    builder.add_edge("nonexistent", name_set(vec!["__end__".to_string()]));
    let result = builder.compile();

    assert!(
        matches!(result, Err(LangGraphError::GraphError(msg)) if msg.contains("is not a registered node")),
        "Invalid edge source should fail validation"
    );
}

#[test]
fn test_parallel_multiple_failures() -> Result<(), LangGraphError> {
    let mut builder = Builder::<MemoryState>::new();
    builder.add_node("failing1", node(FailingNode));
    builder.add_node("failing2", node(FailingNode));
    builder.add_edge("__start__", name_set(vec!["failing1".to_string(), "failing2".to_string()]));
    builder.add_edge("failing1", name_set(vec!["__end__".to_string()]));
    builder.add_edge("failing2", name_set(vec!["__end__".to_string()]));
    let graph = builder.compile()?;

    let state = Arc::new(MemoryState::new());
    let result = graph.invoke(state);

    assert!(
        result.is_err(),
        "Parallel execution with multiple failures should return error"
    );

    Ok(())
}

#[test]
fn test_duplicate_node_name() -> Result<(), LangGraphError> {
    let mut builder = Builder::<MemoryState>::new();
    builder.add_node("node", node(CounterNode));
    builder.add_node("node", node(MessageNode { message: "test".to_string() }));
    builder.add_edge("__start__", name_set(vec!["node".to_string()]));
    builder.add_edge("node", name_set(vec!["__end__".to_string()]));
    let graph = builder.compile()?;

    let state = Arc::new(MemoryState::new());
    graph.invoke(state.clone())?;

    let message: Option<String> = state.get("message")?;
    assert!(message.is_some(), "Message should be set by second node");
    assert_eq!(message.unwrap(), "test");

    Ok(())
}

#[test]
fn test_empty_state_initialization() -> Result<(), LangGraphError> {
    let state = Arc::new(MemoryState::new());

    let result: Option<i32> = state.get("any_key")?;
    assert!(result.is_none(), "Empty state should return None for any key");

    Ok(())
}

#[test]
fn test_state_value_overwrite() -> Result<(), LangGraphError> {
    let state = Arc::new(MemoryState::new());

    state.set("key", "first")?;
    state.set("key", "second")?;

    let value: String = state.get("key")?.unwrap();
    assert_eq!(value, "second", "Value should be overwritten");

    Ok(())
}

#[test]
fn test_complex_state_data() -> Result<(), LangGraphError> {
    let state = Arc::new(MemoryState::new());

    let vec_data = vec![1, 2, 3, 4, 5];
    let map_data: std::collections::HashMap<String, i32> = [("a".to_string(), 1), ("b".to_string(), 2)].into();

    state.set("vec", vec_data)?;
    state.set("map", map_data)?;

    let retrieved_vec: Vec<i32> = state.get("vec")?.unwrap();
    let retrieved_map: std::collections::HashMap<String, i32> = state.get("map")?.unwrap();

    assert_eq!(retrieved_vec, vec![1, 2, 3, 4, 5]);
    assert_eq!(retrieved_map.get("a"), Some(&1));
    assert_eq!(retrieved_map.get("b"), Some(&2));

    Ok(())
}

#[test]
fn test_isolated_node() {
    let mut builder = Builder::<MemoryState>::new();
    builder.add_node("reachable", node(CounterNode));
    builder.add_node("isolated", node(CounterNode));
    builder.add_edge("__start__", name_set(vec!["reachable".to_string()]));
    builder.add_edge("reachable", name_set(vec!["__end__".to_string()]));
    let result = builder.compile();

    assert!(
        result.is_ok(),
        "Isolated nodes are allowed"
    );
}

#[test]
fn test_self_loop_node() -> Result<(), LangGraphError> {
    let mut builder = Builder::<MemoryState>::new();
    builder.add_node("loop_node", node(CounterNode));
    builder.add_edge("__start__", name_set(vec!["loop_node".to_string()]));
    builder.add_edge("loop_node", name_set(vec!["loop_node".to_string()]));
    builder.set_max_steps(3);
    let graph = builder.compile()?;

    let state = Arc::new(MemoryState::new());
    graph.invoke(state.clone())?;

    let count: i32 = state.get("count")?.unwrap();
    assert_eq!(count, 2, "Self-loop should execute max_steps - 1 times (start node skipped)");

    Ok(())
}

#[test]
fn test_batch_apply_error_collection() -> Result<(), LangGraphError> {
    let mut builder = Builder::<MemoryState>::new();
    builder.add_node("failing1", node(FailingNode));
    builder.add_node("failing2", node(FailingNode));
    builder.add_edge("__start__", name_set(vec!["failing1".to_string(), "failing2".to_string()]));
    builder.add_edge("failing1", name_set(vec!["__end__".to_string()]));
    builder.add_edge("failing2", name_set(vec!["__end__".to_string()]));
    let graph = builder.compile()?;

    let state = Arc::new(MemoryState::new());
    let result = graph.invoke(state);

    match result {
        Err(LangGraphError::NodeError(msg)) => {
            println!("Error message: {}", msg);
            assert!(
                msg.contains("Intentional failure"),
                "Should contain error message"
            );
        }
        _ => {
            panic!("Expected NodeError");
        }
    }

    Ok(())
}

#[test]
fn test_no_path_to_end() -> Result<(), LangGraphError> {
    let mut builder = Builder::<MemoryState>::new();
    builder.add_node("node1", node(CounterNode));
    builder.add_node("node2", node(CounterNode));
    builder.add_edge("__start__", name_set(vec!["node1".to_string()]));
    builder.add_edge("node1", name_set(vec!["node2".to_string()]));
    let graph = builder.compile()?;

    let state = Arc::new(MemoryState::new());
    let result = graph.invoke(state);

    assert!(
        matches!(result, Err(LangGraphError::GraphError(msg)) if msg.contains("Dead-end")),
        "Should report dead-end when no path to end"
    );

    Ok(())
}

#[test]
fn test_start_node_as_regular_node() {
    let mut builder = Builder::<MemoryState>::new();
    builder.add_node("__start__", node(CounterNode));
    builder.add_edge("__start__", name_set(vec!["__end__".to_string()]));

    let result = builder.compile();

    assert!(
        matches!(result, Err(LangGraphError::GraphError(msg)) if msg.contains("cannot be a normal node")),
        "Should reject registering start node as regular node"
    );
}

#[test]
fn test_multiple_incoming_edges() -> Result<(), LangGraphError> {
    let mut builder = Builder::<MemoryState>::new();
    builder.add_node("node1", node(CounterNode));
    builder.add_node("node2", node(CounterNode));
    builder.add_node("merge", node(CounterNode));
    builder.add_edge("__start__", name_set(vec!["node1".to_string(), "node2".to_string()]));
    builder.add_edge("node1", name_set(vec!["merge".to_string()]));
    builder.add_edge("node2", name_set(vec!["merge".to_string()]));
    builder.add_edge("merge", name_set(vec!["__end__".to_string()]));
    let graph = builder.compile()?;

    let state = Arc::new(MemoryState::new());
    graph.invoke(state.clone())?;

    let count: i32 = state.get("count")?.unwrap();
    assert_eq!(count, 3, "All three nodes should execute");

    Ok(())
}

#[test]
fn test_node_name_with_special_chars() -> Result<(), LangGraphError> {
    let mut builder = Builder::<MemoryState>::new();
    builder.add_node("node-with-dashes", node(CounterNode));
    builder.add_node("node_with_underscores", node(CounterNode));
    builder.add_node("node.with.dots", node(CounterNode));
    builder.add_edge("__start__", name_set(vec!["node-with-dashes".to_string()]));
    builder.add_edge("node-with-dashes", name_set(vec!["node_with_underscores".to_string()]));
    builder.add_edge("node_with_underscores", name_set(vec!["node.with.dots".to_string()]));
    builder.add_edge("node.with.dots", name_set(vec!["__end__".to_string()]));
    let graph = builder.compile()?;

    let state = Arc::new(MemoryState::new());
    graph.invoke(state.clone())?;

    let count: i32 = state.get("count")?.unwrap();
    assert_eq!(count, 3, "All nodes with special chars should execute");

    Ok(())
}

#[test]
fn test_large_workflow() -> Result<(), LangGraphError> {
    let mut builder = Builder::<MemoryState>::new();

    for i in 0..10 {
        builder.add_node(&format!("node{}", i), node(CounterNode));
    }

    builder.add_edge("__start__", name_set(vec!["node0".to_string()]));
    for i in 0..9 {
        builder.add_edge(&format!("node{}", i), name_set(vec![format!("node{}", i + 1)]));
    }
    builder.add_edge("node9", name_set(vec!["__end__".to_string()]));

    let graph = builder.compile()?;

    let state = Arc::new(MemoryState::new());
    graph.invoke(state.clone())?;

    let count: i32 = state.get("count")?.unwrap();
    assert_eq!(count, 10, "All 10 nodes should execute");

    Ok(())
}

#[test]
fn test_empty_edge_set() {
    let mut builder = Builder::<MemoryState>::new();
    builder.add_node("node", node(CounterNode));
    builder.add_edge("__start__", NameSet::new());

    let result = builder.compile();

    assert!(result.is_ok(), "Empty edge set should compile");
}

#[test]
fn test_duplicate_edges() -> Result<(), LangGraphError> {
    let mut builder = Builder::<MemoryState>::new();
    builder.add_node("node1", node(CounterNode));
    builder.add_node("node2", node(CounterNode));
    builder.add_edge("__start__", name_set(vec!["node1".to_string()]));
    builder.add_edge("__start__", name_set(vec!["node1".to_string()]));
    builder.add_edge("node1", name_set(vec!["node2".to_string()]));
    builder.add_edge("node2", name_set(vec!["__end__".to_string()]));

    let graph = builder.compile()?;

    let state = Arc::new(MemoryState::new());
    graph.invoke(state.clone())?;

    let count: i32 = state.get("count")?.unwrap();
    assert_eq!(count, 2, "Duplicate edges should be overwritten");

    Ok(())
}

#[test]
fn test_large_state_data() -> Result<(), LangGraphError> {
    let state = Arc::new(MemoryState::new());

    let large_string = "x".repeat(10000);
    state.set("large_string", large_string.clone())?;

    let retrieved: String = state.get("large_string")?.unwrap();
    assert_eq!(retrieved, large_string, "Large string should be stored correctly");

    Ok(())
}

#[test]
fn test_nested_state_data() -> Result<(), LangGraphError> {
    let state = Arc::new(MemoryState::new());

    let data: ((i32,), String) = ((42,), "test".to_string());

    state.set("nested", data.clone())?;

    let retrieved: ((i32,), String) = state.get("nested")?.unwrap();
    assert_eq!(retrieved, data, "Nested struct should be stored correctly");

    Ok(())
}

#[test]
fn test_graph_immutability() -> Result<(), LangGraphError> {
    let mut builder = Builder::<MemoryState>::new();
    builder.add_node("node", node(CounterNode));
    builder.add_edge("__start__", name_set(vec!["node".to_string()]));
    builder.add_edge("node", name_set(vec!["__end__".to_string()]));

    let graph = builder.compile()?;

    let state = Arc::new(MemoryState::new());
    graph.invoke(state.clone())?;

    let count: i32 = state.get("count")?.unwrap();
    assert_eq!(count, 1, "Graph should work after compilation");

    Ok(())
}

#[test]
fn test_max_steps_boundary() {
    let mut builder = Builder::<MemoryState>::new();
    builder.add_node("counter", node(CounterNode));
    builder.add_edge("__start__", name_set(vec!["counter".to_string()]));
    builder.add_edge("counter", name_set(vec!["counter".to_string()]));
    builder.set_max_steps(0);

    let result = builder.compile();

    assert!(matches!(result, Err(LangGraphError::GraphError(msg)) if msg.contains("max_steps must be greater than 0")),
            "max_steps=0 should fail at compile time");
}

#[test]
fn test_state_reuse_after_execution() -> Result<(), LangGraphError> {
    let mut builder = Builder::<MemoryState>::new();
    builder.add_node("counter", node(CounterNode));
    builder.add_edge("__start__", name_set(vec!["counter".to_string()]));
    builder.add_edge("counter", name_set(vec!["__end__".to_string()]));

    let graph = builder.compile()?;

    let state = Arc::new(MemoryState::new());
    graph.invoke(state.clone())?;

    state.set("post_execution", "value")?;

    let count: i32 = state.get("count")?.unwrap();
    let post_value: String = state.get("post_execution")?.unwrap();

    assert_eq!(count, 1, "Counter should be incremented");
    assert_eq!(post_value, "value", "State should be modifiable after execution");

    Ok(())
}

#[test]
fn test_execution_order() -> Result<(), LangGraphError> {
    #[derive(Debug, Clone)]
    struct OrderNode {
        order: i32,
    }
    impl AgentNode<MemoryState> for OrderNode {
        fn apply(&self, state: Arc<MemoryState>) -> Result<(), LangGraphError> {
            let mut orders: Vec<i32> = state.get("execution_order").unwrap_or(None).unwrap_or_default();
            orders.push(self.order);
            state.set("execution_order", orders)?;
            Ok(())
        }
    }

    let mut builder = Builder::<MemoryState>::new();
    builder.add_node("node1", node(OrderNode { order: 1 }));
    builder.add_node("node2", node(OrderNode { order: 2 }));
    builder.add_node("node3", node(OrderNode { order: 3 }));
    builder.add_edge("__start__", name_set(vec!["node1".to_string()]));
    builder.add_edge("node1", name_set(vec!["node2".to_string()]));
    builder.add_edge("node2", name_set(vec!["node3".to_string()]));
    builder.add_edge("node3", name_set(vec!["__end__".to_string()]));

    let graph = builder.compile()?;

    let state = Arc::new(MemoryState::new());
    graph.invoke(state.clone())?;

    let orders: Vec<i32> = state.get("execution_order")?.unwrap();
    assert_eq!(orders, vec![1, 2, 3], "Nodes should execute in order");

    Ok(())
}

#[test]
fn test_empty_node_name() {
    let mut builder = Builder::<MemoryState>::new();
    builder.add_node("", node(CounterNode));
    builder.add_edge("__start__", name_set(vec!["".to_string()]));

    let result = builder.compile();

    assert!(matches!(result, Err(LangGraphError::GraphError(msg)) if msg.contains("Node name cannot be empty")),
            "Empty node name should fail at compile time");
}

#[test]
fn test_edge_to_deleted_node() {
    println!("Nodes cannot be removed from a builder");
}

#[test]
fn test_graph_repeated_execution() -> Result<(), LangGraphError> {
    let mut builder = Builder::<MemoryState>::new();
    builder.add_node("counter", node(CounterNode));
    builder.add_edge("__start__", name_set(vec!["counter".to_string()]));
    builder.add_edge("counter", name_set(vec!["__end__".to_string()]));

    let graph = builder.compile()?;

    let state1 = Arc::new(MemoryState::new());
    graph.invoke(state1.clone())?;

    let state2 = Arc::new(MemoryState::new());
    graph.invoke(state2.clone())?;

    let count1: i32 = state1.get("count")?.unwrap();
    let count2: i32 = state2.get("count")?.unwrap();

    assert_eq!(count1, 1, "First execution should increment counter");
    assert_eq!(count2, 1, "Second execution should use fresh state");

    Ok(())
}

#[test]
fn test_cyclic_graph() -> Result<(), LangGraphError> {
    let mut builder = Builder::<MemoryState>::new();
    builder.add_node("node1", node(CounterNode));
    builder.add_node("node2", node(CounterNode));
    builder.add_edge("__start__", name_set(vec!["node1".to_string()]));
    builder.add_edge("node1", name_set(vec!["node2".to_string()]));
    builder.add_edge("node2", name_set(vec!["node1".to_string()]));
    builder.set_max_steps(4);

    let graph = builder.compile()?;

    let state = Arc::new(MemoryState::new());
    graph.invoke(state.clone())?;

    let count: i32 = state.get("count")?.unwrap();
    assert_eq!(count, 3, "Should execute 3 times before max steps (start node skipped)");

    Ok(())
}

#[test]
fn test_node_no_state_modification() -> Result<(), LangGraphError> {
    #[derive(Debug, Clone)]
    struct NoOpNode;
    impl AgentNode<MemoryState> for NoOpNode {
        fn apply(&self, _state: Arc<MemoryState>) -> Result<(), LangGraphError> {
            Ok(())
        }
    }

    let mut builder = Builder::<MemoryState>::new();
    builder.add_node("noop", node(NoOpNode));
    builder.add_edge("__start__", name_set(vec!["noop".to_string()]));
    builder.add_edge("noop", name_set(vec!["__end__".to_string()]));

    let graph = builder.compile()?;

    let state = Arc::new(MemoryState::new());
    state.set("existing_key", "value")?;

    graph.invoke(state.clone())?;

    let value: Option<String> = state.get("existing_key")?;
    assert_eq!(value, Some("value".to_string()), "Existing state should be preserved");

    Ok(())
}

#[test]
fn test_shared_state_between_graphs() -> Result<(), LangGraphError> {
    let mut builder1 = Builder::<MemoryState>::new();
    builder1.add_node("counter1", node(CounterNode));
    builder1.add_edge("__start__", name_set(vec!["counter1".to_string()]));
    builder1.add_edge("counter1", name_set(vec!["__end__".to_string()]));

    let mut builder2 = Builder::<MemoryState>::new();
    builder2.add_node("counter2", node(CounterNode));
    builder2.add_edge("__start__", name_set(vec!["counter2".to_string()]));
    builder2.add_edge("counter2", name_set(vec!["__end__".to_string()]));

    let graph1 = builder1.compile()?;
    let graph2 = builder2.compile()?;

    let shared_state = Arc::new(MemoryState::new());

    graph1.invoke(Arc::clone(&shared_state))?;
    graph2.invoke(shared_state.clone())?;

    let count: i32 = shared_state.get("count")?.unwrap();
    assert_eq!(count, 2, "Both graphs should increment the shared counter");

    Ok(())
}

#[test]
#[should_panic(expected = "Intentional panic")]
fn test_node_panic_handling() {
    #[derive(Debug, Clone)]
    struct PanicNode;
    impl AgentNode<MemoryState> for PanicNode {
        fn apply(&self, _state: Arc<MemoryState>) -> Result<(), LangGraphError> {
            panic!("Intentional panic");
        }
    }

    let mut builder = Builder::<MemoryState>::new();
    builder.add_node("panic", node(PanicNode));
    builder.add_edge("__start__", name_set(vec!["panic".to_string()]));
    builder.add_edge("panic", name_set(vec!["__end__".to_string()]));

    let graph = builder.compile().unwrap();

    let state = Arc::new(MemoryState::new());
    graph.invoke(state).expect("the node panics");
}

#[test]
fn test_state_storage_capacity() -> Result<(), LangGraphError> {
    let state = Arc::new(MemoryState::new());

    for i in 0..1000 {
        state.set(&format!("key{}", i), i)?;
    }

    for i in 0..1000 {
        let value: i32 = state.get(&format!("key{}", i))?.unwrap();
        assert_eq!(value, i, "All keys should be stored correctly");
    }

    Ok(())
}

#[test]
fn test_graph_memory_usage() -> Result<(), LangGraphError> {
    let mut builder = Builder::<MemoryState>::new();

    for i in 0..100 {
        builder.add_node(&format!("node{}", i), node(CounterNode));
        if i == 0 {
            builder.add_edge("__start__", name_set(vec![format!("node{}", i)]));
        } else {
            builder.add_edge(&format!("node{}", i - 1), name_set(vec![format!("node{}", i)]));
        }
    }
    builder.add_edge("node99", name_set(vec!["__end__".to_string()]));

    let graph = builder.compile()?;

    let state = Arc::new(MemoryState::new());
    graph.invoke(state.clone())?;

    let count: i32 = state.get("count")?.unwrap();
    assert_eq!(count, 100, "All 100 nodes should execute");

    Ok(())
}

#[test]
fn test_edge_overwrite_behavior() -> Result<(), LangGraphError> {
    let mut builder = Builder::<MemoryState>::new();
    builder.add_node("node1", node(CounterNode));
    builder.add_node("node2", node(CounterNode));
    builder.add_node("node3", node(CounterNode));

    builder.add_edge("__start__", name_set(vec!["node1".to_string()]));
    builder.add_edge("node1", name_set(vec!["node2".to_string()]));

    builder.add_edge("node1", name_set(vec!["node3".to_string()]));

    builder.add_edge("node2", name_set(vec!["__end__".to_string()]));
    builder.add_edge("node3", name_set(vec!["__end__".to_string()]));

    let graph = builder.compile()?;

    let state = Arc::new(MemoryState::new());
    graph.invoke(state.clone())?;

    let count: i32 = state.get("count")?.unwrap();
    assert_eq!(count, 2, "Edge overwrite: only node1 and node3 should execute");

    Ok(())
}

#[test]
fn test_conditional_edge_empty_string() {
    let mut builder = Builder::<MemoryState>::new();
    builder.add_node("node", node(CounterNode));

    builder.add_conditional_edge("__start__", vec![Box::new(|_state| "".to_string())]);

    let result = builder.compile();

    assert!(result.is_ok(), "Conditional edge with empty string compiles");
}

#[test]
fn test_conditional_edge_invalid_target() {
    let mut builder = Builder::<MemoryState>::new();
    builder.add_node("node", node(CounterNode));

    builder.add_conditional_edge("__start__", vec![Box::new(|_state| "nonexistent".to_string())]);

    let graph = builder.compile().unwrap();
    let state = Arc::new(MemoryState::new());

    let result = graph.invoke(state);

    assert!(result.is_err(), "Should fail at runtime due to invalid target");
}

#[test]
fn test_empty_node_name_validation() {
    let mut builder = Builder::<MemoryState>::new();
    builder.add_node("", node(CounterNode));
    builder.add_edge("__start__", name_set(vec!["".to_string()]));
    builder.add_edge("", name_set(vec!["__end__".to_string()]));

    let result = builder.compile();

    assert!(matches!(result, Err(LangGraphError::GraphError(msg)) if msg.contains("Node name cannot be empty")),
            "Should fail at compile time for empty node name");
}

#[test]
fn test_batch_apply_single_error() -> Result<(), LangGraphError> {
    let mut builder = Builder::<MemoryState>::new();
    builder.add_node("good", node(CounterNode));
    builder.add_node("bad", node(FailingNode));
    builder.add_edge("__start__", name_set(vec!["good".to_string(), "bad".to_string()]));
    builder.add_edge("good", name_set(vec!["__end__".to_string()]));
    builder.add_edge("bad", name_set(vec!["__end__".to_string()]));

    let graph = builder.compile()?;
    let state = Arc::new(MemoryState::new());

    let result = graph.invoke(state.clone());

    assert!(result.is_err(), "Should return error");

    let count: Option<i32> = state.get("count")?;
    assert!(count.is_some(), "Good node should have executed before error");

    Ok(())
}

#[test]
fn test_max_steps_zero() {
    let mut builder = Builder::<MemoryState>::new();
    builder.add_node("node", node(CounterNode));
    builder.add_edge("__start__", name_set(vec!["node".to_string()]));
    builder.add_edge("node", name_set(vec!["__end__".to_string()]));
    builder.set_max_steps(0);

    let result = builder.compile();

    assert!(matches!(result, Err(LangGraphError::GraphError(msg)) if msg.contains("max_steps must be greater than 0")),
            "Should fail at compile time when max_steps is 0");
}

#[test]
fn test_conditional_edge_empty_string_deadloop() {
    let mut builder = Builder::<MemoryState>::new();
    builder.add_node("node", node(CounterNode));
    builder.add_conditional_edge("__start__", vec![Box::new(|_state| "".to_string())]);

    let graph = builder.compile().unwrap();
    let state = Arc::new(MemoryState::new());

    let result = graph.invoke(state.clone());

    assert!(matches!(result, Err(LangGraphError::NotFound(msg)) if msg.contains("not found")),
            "Should return NotFound error when conditional edge returns empty string");
}

#[test]
fn test_conditional_edge_runtime_error() {
    let mut builder = Builder::<MemoryState>::new();
    builder.add_node("node", node(CounterNode));

    builder.add_conditional_edge("__start__", vec![Box::new(|_state| "nonexistent".to_string())]);

    let graph = builder.compile().unwrap();
    let state = Arc::new(MemoryState::new());

    let result = graph.invoke(state);

    assert!(matches!(result, Err(LangGraphError::NotFound(_))),
            "Should return NotFound error for invalid target");
}

#[test]
fn test_empty_conditional_edges() {
    let mut builder = Builder::<MemoryState>::new();
    builder.add_node("node", node(CounterNode));

    builder.add_conditional_edge("__start__", vec![]);

    let result = builder.compile();

    assert!(result.is_ok(), "Empty conditional edges should compile");

    let graph = result.unwrap();
    let state = Arc::new(MemoryState::new());
    let exec_result = graph.invoke(state);

    assert!(matches!(exec_result, Err(LangGraphError::GraphError(msg)) if msg.contains("Dead-end")),
            "Should return Dead-end error");
}

#[test]
fn test_parallel_execution_error_handling() -> Result<(), LangGraphError> {
    let mut builder = Builder::<MemoryState>::new();
    builder.add_node("slow", node(SlowNode));
    builder.add_node("fast_fail", node(FailingNode));
    builder.add_edge("__start__", name_set(vec!["slow".to_string(), "fast_fail".to_string()]));
    builder.add_edge("slow", name_set(vec!["__end__".to_string()]));
    builder.add_edge("fast_fail", name_set(vec!["__end__".to_string()]));

    let graph = builder.compile()?;
    let state = Arc::new(MemoryState::new());

    let result = graph.invoke(state.clone());

    assert!(result.is_err(), "Should return error from failing node");

    Ok(())
}

#[test]
fn test_static_and_conditional_edges_conflict() {
    let mut builder = Builder::<MemoryState>::new();
    builder.add_node("node", node(CounterNode));

    builder.add_edge("__start__", name_set(vec!["node".to_string()]));
    builder.add_conditional_edge("__start__", vec![Box::new(|_state| "node".to_string())]);

    builder.add_edge("node", name_set(vec!["__end__".to_string()]));

    let result = builder.compile();

    assert!(matches!(result, Err(LangGraphError::GraphError(msg)) if msg.contains("cannot have both")),
            "Should fail when node has both static and conditional edges");
}

#[test]
fn test_conditional_edge_returns_end() -> Result<(), LangGraphError> {
    let mut builder = Builder::<MemoryState>::new();
    builder.add_node("decide", node(CounterNode));

    builder.add_conditional_edge("__start__", vec![Box::new(|_state| "__end__".to_string())]);

    let graph = builder.compile()?;
    let state = Arc::new(MemoryState::new());

    graph.invoke(state.clone())?;

    let count: Option<i32> = state.get("count")?;
    assert!(count.is_none(), "No intermediate nodes should execute when jumping directly to end");

    Ok(())
}

#[test]
fn test_multiple_conditional_edges_same_target() -> Result<(), LangGraphError> {
    let mut builder = Builder::<MemoryState>::new();
    builder.add_node("target", node(CounterNode));

    builder.add_conditional_edge("__start__", vec![
        Box::new(|_state| "target".to_string()),
        Box::new(|_state| "target".to_string()),
        Box::new(|_state| "target".to_string()),
    ]);

    builder.add_edge("target", name_set(vec!["__end__".to_string()]));

    let graph = builder.compile()?;
    let state = Arc::new(MemoryState::new());

    graph.invoke(state.clone())?;

    let count: i32 = state.get("count")?.unwrap();
    assert_eq!(count, 1, "Target should execute only once due to deduplication");

    Ok(())
}

#[test]
fn test_conditional_edge_overwrite() -> Result<(), LangGraphError> {
    let mut builder = Builder::<MemoryState>::new();
    builder.add_node("node1", node(CounterNode));
    builder.add_node("node2", node(CounterNode));

    builder.add_conditional_edge("__start__", vec![Box::new(|_state| "node1".to_string())]);
    builder.add_conditional_edge("__start__", vec![Box::new(|_state| "node2".to_string())]);

    builder.add_edge("node1", name_set(vec!["__end__".to_string()]));
    builder.add_edge("node2", name_set(vec!["__end__".to_string()]));

    let graph = builder.compile()?;
    let state = Arc::new(MemoryState::new());

    graph.invoke(state.clone())?;

    let count: i32 = state.get("count")?.unwrap();
    assert_eq!(count, 1, "Only node2 should execute after overwrite");

    Ok(())
}

#[test]
fn test_static_edge_duplicate_targets() -> Result<(), LangGraphError> {
    let mut builder = Builder::<MemoryState>::new();
    builder.add_node("target", node(CounterNode));

    builder.add_edge("__start__", name_set(vec![
        "target".to_string(),
        "target".to_string(),
        "target".to_string(),
    ]));

    builder.add_edge("target", name_set(vec!["__end__".to_string()]));

    let graph = builder.compile()?;
    let state = Arc::new(MemoryState::new());

    graph.invoke(state.clone())?;

    let count: i32 = state.get("count")?.unwrap();
    assert_eq!(count, 1, "Target should execute only once");

    Ok(())
}

#[test]
fn test_edge_back_to_start() -> Result<(), LangGraphError> {
    let mut builder = Builder::<MemoryState>::new();
    builder.add_node("loop", node(CounterNode));

    builder.add_edge("__start__", name_set(vec!["loop".to_string()]));
    builder.add_edge("loop", name_set(vec!["__start__".to_string()]));

    builder.set_max_steps(5);

    let graph = builder.compile()?;
    let state = Arc::new(MemoryState::new());

    graph.invoke(state.clone())?;

    let count: i32 = state.get("count")?.unwrap();
    assert_eq!(count, 2, "Loop executes floor((max_steps-1)/2) times when cycling back to start");

    Ok(())
}

#[test]
fn test_state_type_mismatch() {
    let state = Arc::new(MemoryState::new());

    let set_result = state.set("value", 42i32);
    assert!(set_result.is_ok(), "Should successfully set i32 value");

    let get_result: Result<Option<String>, LangGraphError> = state.get("value");

    assert!(get_result.is_err(), "Should fail when reading as different type");
    assert!(matches!(get_result, Err(LangGraphError::StateError(msg)) if msg.contains("Deserialization error")),
            "Should return deserialization error for type mismatch");
}

#[test]
fn test_state_special_key_characters() -> Result<(), LangGraphError> {
    let state = Arc::new(MemoryState::new());

    let special_keys = vec![
        "key with spaces",
        "key-with-dashes",
        "key.with.dots",
        "key/with/slashes",
        "key\\with\\backslashes",
        "key\nwith\nnewlines",
        "key\twith\ttabs",
        "中文键名",
        "emoji🔑",
        "",
    ];

    for (i, key) in special_keys.iter().enumerate() {
        state.set(key, i as i32)?;
        let retrieved: Option<i32> = state.get(key)?;
        assert_eq!(retrieved, Some(i as i32), "Failed for key: {:?}", key);
    }

    Ok(())
}

#[test]
fn test_static_edge_empty_target() {
    let mut builder = Builder::<MemoryState>::new();
    builder.add_node("node", node(CounterNode));

    builder.add_edge("__start__", name_set(vec!["".to_string(), "node".to_string()]));
    builder.add_edge("node", name_set(vec!["__end__".to_string()]));

    let result = builder.compile();

    assert!(result.is_err(), "Empty string in edge targets should fail compilation");
}

#[test]
fn integration_test_test_very_long_node_name() -> Result<(), LangGraphError> {
    let long_name = "a".repeat(10000);
    let mut builder = Builder::<MemoryState>::new();
    builder.add_node(&long_name, node(CounterNode));
    builder.add_edge("__start__", name_set(vec![long_name.clone()]));
    builder.add_edge(&long_name, name_set(vec!["__end__".to_string()]));

    let graph = builder.compile()?;
    let state = Arc::new(MemoryState::new());

    graph.invoke(state.clone())?;

    let count: i32 = state.get("count")?.unwrap();
    assert_eq!(count, 1, "Long node name should work fine");

    Ok(())
}

#[test]
fn test_node_referenced_by_multiple_edges() -> Result<(), LangGraphError> {
    let mut builder = Builder::<MemoryState>::new();
    builder.add_node("shared", node(CounterNode));
    builder.add_node("source1", node(CounterNode));
    builder.add_node("source2", node(CounterNode));

    builder.add_edge("__start__", name_set(vec!["source1".to_string(), "source2".to_string()]));
    builder.add_edge("source1", name_set(vec!["shared".to_string()]));
    builder.add_edge("source2", name_set(vec!["shared".to_string()]));
    builder.add_edge("shared", name_set(vec!["__end__".to_string()]));

    let graph = builder.compile()?;
    let state = Arc::new(MemoryState::new());

    graph.invoke(state.clone())?;

    let count: i32 = state.get("count")?.unwrap();
    assert_eq!(count, 3, "source1 + source2 + shared = 3 executions");

    Ok(())
}

#[test]
fn test_state_rapid_set_get() -> Result<(), LangGraphError> {
    let state = Arc::new(MemoryState::new());

    for i in 0..1000 {
        state.set("rapid_key", i)?;
        let value: Option<i32> = state.get("rapid_key")?;
        assert_eq!(value, Some(i), "Value mismatch at iteration {}", i);
    }

    Ok(())
}

#[test]
fn test_large_number_of_state_keys() -> Result<(), LangGraphError> {
    let state = Arc::new(MemoryState::new());

    const NUM_KEYS: usize = 10000;

    for i in 0..NUM_KEYS {
        let key = format!("key_{}", i);
        state.set(&key, i)?;
    }

    for i in 0..NUM_KEYS {
        let key = format!("key_{}", i);
        let value: Option<usize> = state.get(&key)?;
        assert_eq!(value, Some(i), "Mismatch for key {}", i);
    }

    Ok(())
}

type NestedData = (String, Vec<i32>, std::collections::HashMap<String, String>, Option<f64>);

#[test]
fn test_complex_nested_data_structure() -> Result<(), LangGraphError> {
    let mut metadata = std::collections::HashMap::new();
    metadata.insert("key1".to_string(), "value1".to_string());
    metadata.insert("key2".to_string(), "value2".to_string());
    let data: NestedData = ("test".to_string(), vec![1, 2, 3, 4, 5], metadata, Some(3.14));

    let state = Arc::new(MemoryState::new());
    state.set("nested", &data)?;

    let retrieved: Option<NestedData> = state.get("nested")?;
    assert_eq!(retrieved, Some(data), "Complex nested structure should round-trip correctly");

    Ok(())
}

#[test]
fn test_graph_immutability_after_compile() -> Result<(), LangGraphError> {
    let mut builder = Builder::<MemoryState>::new();
    builder.add_node("node", node(CounterNode));
    builder.add_edge("__start__", name_set(vec!["node".to_string()]));
    builder.add_edge("node", name_set(vec!["__end__".to_string()]));

    let graph = builder.compile()?;

    let state1 = Arc::new(MemoryState::new());
    let state2 = Arc::new(MemoryState::new());

    graph.invoke(state1.clone())?;
    graph.invoke(state2.clone())?;

    let count1: i32 = state1.get("count")?.unwrap();
    let count2: i32 = state2.get("count")?.unwrap();

    assert_eq!(count1, count2, "Multiple invocations should produce same result");

    Ok(())
}

#[test]
fn test_empty_conditional_router_list() {
    let mut builder = Builder::<MemoryState>::new();
    builder.add_node("node", node(CounterNode));

    builder.add_conditional_edge("__start__", vec![]);

    let result = builder.compile();

    assert!(result.is_ok(), "Empty router list should compile");

    let graph = result.unwrap();
    let state = Arc::new(MemoryState::new());
    let exec_result = graph.invoke(state);

    assert!(matches!(exec_result, Err(LangGraphError::GraphError(msg)) if msg.contains("Dead-end")),
            "Should return Dead-end error when no routers produce output");
}

#[test]
fn test_conditional_routing_based_on_state() -> Result<(), LangGraphError> {
    let mut builder = Builder::<MemoryState>::new();
    builder.add_node("route_a", node(CounterNode));
    builder.add_node("route_b", node(MessageNode { message: "B".to_string() }));

    builder.add_conditional_edge("__start__", vec![
        Box::new(|state| {
            let choice: Option<String> = state.get("choice").unwrap_or(None);
            match choice.as_deref() {
                Some("A") => "route_a".to_string(),
                _ => "route_b".to_string(),
            }
        }),
    ]);

    builder.add_edge("route_a", name_set(vec!["__end__".to_string()]));
    builder.add_edge("route_b", name_set(vec!["__end__".to_string()]));

    let graph = builder.compile()?;

    let state_a = Arc::new(MemoryState::new());
    state_a.set("choice", "A")?;
    graph.invoke(state_a.clone())?;
    let count_a: i32 = state_a.get("count")?.unwrap();
    let msg_a: Option<String> = state_a.get("message")?;
    assert_eq!(count_a, 1, "Route A should execute");
    assert!(msg_a.is_none(), "Route B should not execute");

    let state_b = Arc::new(MemoryState::new());
    state_b.set("choice", "B")?;
    graph.invoke(state_b.clone())?;
    let count_b: Option<i32> = state_b.get("count")?;
    let msg_b: Option<String> = state_b.get("message")?;
    assert!(count_b.is_none(), "Route A should not execute");
    assert_eq!(msg_b, Some("B".to_string()), "Route B should execute");

    Ok(())
}

#[test]
fn test_state_modification_affects_conditional_routing() -> Result<(), LangGraphError> {
    let mut builder = Builder::<MemoryState>::new();
    builder.add_node("set_route", node(MessageNode { message: "A".to_string() }));
    builder.add_node("target_a", node(CounterNode));
    builder.add_node("target_b", node(CounterNode));

    builder.add_edge("__start__", name_set(vec!["set_route".to_string()]));
    builder.add_conditional_edge("set_route", vec![
        Box::new(|state| {
            let route: Option<String> = state.get("route").unwrap_or(None);
            match route.as_deref() {
                Some("A") => "target_a".to_string(),
                _ => "target_b".to_string(),
            }
        }),
    ]);

    builder.add_edge("target_a", name_set(vec!["__end__".to_string()]));
    builder.add_edge("target_b", name_set(vec!["__end__".to_string()]));

    let graph = builder.compile()?;
    let state = Arc::new(MemoryState::new());

    graph.invoke(state.clone())?;

    let msg: Option<String> = state.get("message")?;
    assert_eq!(msg, Some("A".to_string()), "set_route should have executed");

    Ok(())
}

#[test]
fn test_concurrent_write_same_key() -> Result<(), LangGraphError> {
    let mut builder = Builder::<MemoryState>::new();
    builder.add_node("writer1", node(MessageNode { message: "from_1".to_string() }));
    builder.add_node("writer2", node(MessageNode { message: "from_2".to_string() }));
    builder.add_node("writer3", node(MessageNode { message: "from_3".to_string() }));

    builder.add_edge("__start__", name_set(vec![
        "writer1".to_string(),
        "writer2".to_string(),
        "writer3".to_string(),
    ]));

    builder.add_edge("writer1", name_set(vec!["__end__".to_string()]));
    builder.add_edge("writer2", name_set(vec!["__end__".to_string()]));
    builder.add_edge("writer3", name_set(vec!["__end__".to_string()]));

    let graph = builder.compile()?;
    let state = Arc::new(MemoryState::new());

    graph.invoke(state.clone())?;

    let final_msg: Option<String> = state.get("message")?;
    assert!(final_msg.is_some(), "Message should be set by one of the writers");
    assert!(
        final_msg == Some("from_1".to_string()) ||
        final_msg == Some("from_2".to_string()) ||
        final_msg == Some("from_3".to_string()),
        "Final message should be from one of the writers"
    );

    Ok(())
}

#[test]
fn test_graph_with_only_start_node() {
    let builder = Builder::<MemoryState>::new();

    let result = builder.compile();

    assert!(matches!(result, Err(LangGraphError::GraphError(msg)) if msg.contains("at least one node")),
            "Graph must contain at least one node");
}

#[test]
fn test_same_start_and_end_node() {
    let mut builder = Builder::<MemoryState>::new();
    builder.set_start_node("same");
    builder.set_end_node("same");
    builder.add_node("node", node(CounterNode));
    builder.add_edge("same", name_set(vec!["node".to_string()]));
    builder.add_edge("node", name_set(vec!["same".to_string()]));

    let result = builder.compile();

    if let Ok(graph) = result {
        let state = Arc::new(MemoryState::new());
        let exec_result = graph.invoke(state);
        println!("Same start/end node execution result: {:?}", exec_result);
    }
}

#[test]
fn test_edge_source_not_registered() {
    let mut builder = Builder::<MemoryState>::new();
    builder.add_node("node", node(CounterNode));

    builder.add_edge("nonexistent_source", name_set(vec!["node".to_string()]));
    builder.add_edge("__start__", name_set(vec!["node".to_string()]));
    builder.add_edge("node", name_set(vec!["__end__".to_string()]));

    let result = builder.compile();

    assert!(result.is_err(), "Edge source must be a registered node");
}

#[test]
fn test_builder_consumed_after_compile() {
    let mut builder = Builder::<MemoryState>::new();
    builder.add_node("node", node(CounterNode));
    builder.add_edge("__start__", name_set(vec!["node".to_string()]));
    builder.add_edge("node", name_set(vec!["__end__".to_string()]));

    let result1 = builder.compile();
    assert!(result1.is_ok(), "First compile should succeed");

}

#[test]
fn test_state_key_deletion_behavior() -> Result<(), LangGraphError> {
    let state = Arc::new(MemoryState::new());

    state.set("temp_value", 42i32)?;
    let value: Option<i32> = state.get("temp_value")?;
    assert_eq!(value, Some(42), "Value should be retrievable");

    state.set("temp_value", Option::<i32>::None)?;

    let value_after: Option<Option<i32>> = state.get("temp_value")?;
    println!("After setting None: {:?}", value_after);

    Ok(())
}

#[test]
fn test_extreme_numeric_values() -> Result<(), LangGraphError> {
    let state = Arc::new(MemoryState::new());

    state.set("max_i8", i8::MAX)?;
    state.set("min_i8", i8::MIN)?;
    state.set("max_i64", i64::MAX)?;
    state.set("min_i64", i64::MIN)?;
    state.set("max_u64", u64::MAX)?;
    state.set("min_u64", u64::MIN)?;
    state.set("max_f64", f64::MAX)?;
    state.set("min_positive_f64", f64::MIN_POSITIVE)?;
    state.set("neg_max_f64", f64::MIN)?;

    assert_eq!(state.get::<i8>("max_i8")?, Some(i8::MAX));
    assert_eq!(state.get::<i8>("min_i8")?, Some(i8::MIN));
    assert_eq!(state.get::<u64>("max_u64")?, Some(u64::MAX));
    assert_eq!(state.get::<f64>("max_f64")?, Some(f64::MAX));

    let nan_result: Result<Option<f64>, LangGraphError> = match state.set("nan_f64", f64::NAN) {
        Ok(_) => state.get("nan_f64"),
        Err(error) => Err(error),
    };

    assert!(nan_result.is_err(),
            "JSON cannot represent NaN");

    Ok(())
}

#[test]
fn test_unicode_and_special_strings() -> Result<(), LangGraphError> {
    let state = Arc::new(MemoryState::new());

    let test_strings = vec![
        ("empty", "".to_string()),
        ("spaces", "   ".to_string()),
        ("unicode_chinese", "你好世界".to_string()),
        ("unicode_emoji", "🎉🚀💻".to_string()),
        ("special_chars", "\"'<>\\&\0".to_string()),
        ("very_long", "x".repeat(10000)),
        ("json_like", "{\"key\": \"value\"}".to_string()),
        ("multiline", "line1\nline2\r\nline3".to_string()),
        ("tabs", "\t\t\t".to_string()),
    ];

    for (key, value) in &test_strings {
        state.set(key, value)?;
        let retrieved: Option<String> = state.get(key)?;
        assert_eq!(retrieved, Some(value.clone()), "Failed for key: {}", key);
    }

    Ok(())
}

#[test]
fn test_boolean_state_management() -> Result<(), LangGraphError> {
    let state = Arc::new(MemoryState::new());

    state.set("flag_true", true)?;
    state.set("flag_false", false)?;

    assert_eq!(state.get::<bool>("flag_true")?, Some(true));
    assert_eq!(state.get::<bool>("flag_false")?, Some(false));

    let mismatch: Result<Option<i32>, _> = state.get("flag_true");
    assert!(mismatch.is_err(), "Type mismatch should fail");

    Ok(())
}

#[test]
fn test_vec_state_management() -> Result<(), LangGraphError> {
    let state = Arc::new(MemoryState::new());

    let original_vec = vec![1, 2, 3, 4, 5];
    state.set("numbers", &original_vec)?;

    let retrieved: Option<Vec<i32>> = state.get("numbers")?;
    assert_eq!(retrieved, Some(original_vec), "Vec should round-trip correctly");

    state.set("empty_vec", Vec::<i32>::new())?;
    let empty: Option<Vec<i32>> = state.get("empty_vec")?;
    assert_eq!(empty, Some(vec![]), "Empty vec should work");

    let nested = vec![vec![1, 2], vec![3, 4], vec![5]];
    state.set("nested_vec", &nested)?;
    let retrieved_nested: Option<Vec<Vec<i32>>> = state.get("nested_vec")?;
    assert_eq!(retrieved_nested, Some(nested), "Nested vec should work");

    Ok(())
}

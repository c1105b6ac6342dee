//! Memories of other kinds, JSON values, errors and unusual graphs.

use std::sync::{Arc, Mutex};

use langgraph4rust::agent_state::decoded;
use langgraph4rust::{AgentNode, DefaultMemoryState, LangGraphError, NameSet, StateGraphBuilder};
use serde_json::Value;

/// A memory that nodes and routers can share.
struct MemoryState {
    memory: Mutex<DefaultMemoryState>,
}

impl MemoryState {
    fn new() -> Self {
        MemoryState { memory: Mutex::new(DefaultMemoryState::new()) }
    }

    fn get<T: serde::de::DeserializeOwned>(&self, key: &str) -> Result<Option<T>, LangGraphError> {
        decoded(self.memory.lock().unwrap().get(key).map(serde_json::from_value))
    }

    fn set<T: serde::Serialize>(&self, key: &str, value: T) -> Result<bool, LangGraphError> {
        self.memory.lock().unwrap().set(key, serde_json::to_value(value))
    }
}

/// A node of any kind.
struct Node<S>(Box<dyn AgentNode<S>>);

impl<S> AgentNode<S> for Node<S> {
    fn apply(&self, state: Arc<S>) -> Result<(), LangGraphError> {
        self.0.apply(state)
    }
}

type Router<S> = Box<dyn Fn(&S) -> String>;

type Builder<S> = StateGraphBuilder<Node<S>, Router<S>>;

fn node<S>(node: impl AgentNode<S> + 'static) -> Node<S> {
    Node(Box::new(node))
}

fn name_set(names: Vec<String>) -> NameSet {
    NameSet::from_vec(names)
}

#[derive(Debug, Clone)]
struct LoggingState {
    data: Arc<Mutex<std::collections::HashMap<String, Value>>>,
    logs: Arc<Mutex<Vec<String>>>,
}

impl LoggingState {
    pub fn new() -> Self {
        LoggingState {
            data: Arc::new(Mutex::new(std::collections::HashMap::new())),
            logs: Arc::new(Mutex::new(Vec::new())),
        }
    }

    pub fn get_logs(&self) -> Vec<String> {
        self.logs.lock().unwrap().clone()
    }
}
impl LoggingState {
    fn get<T: serde::de::DeserializeOwned>(
        &self,
        key: &str,
    ) -> Result<Option<T>, LangGraphError> {
        let data = self.data.lock().unwrap();
        match data.get(key) {
            Some(value) => {
                let result: T = serde_json::from_value(value.clone()).map_err(|e| {
                    LangGraphError::StateError(format!("Deserialization error: {}", e))
                })?;
                Ok(Some(result))
            }
            None => Ok(None),
        }
    }

    fn set<T: serde::Serialize>(
        &self,
        key: &str,
        value: T,
    ) -> Result<bool, LangGraphError> {
        let value_json =
            serde_json::to_string(&value).unwrap_or_else(|_| "non-serializable".to_string());
        self.logs
            .lock()
            .unwrap()
            .push(format!("SET {} = {}", key, value_json));
        let json_value = serde_json::to_value(value)
            .map_err(|e| LangGraphError::StateError(format!("Serialization error: {}", e)))?;

        let mut data = self.data.lock().unwrap();
        data.insert(key.to_string(), json_value);
        Ok(true)
    }

}

#[test]
fn test_custom_agent_state_implementation() -> Result<(), LangGraphError> {
    struct LoggingNode;
    impl AgentNode<LoggingState> for LoggingNode {
        fn apply(&self, state: Arc<LoggingState>) -> Result<(), LangGraphError> {
            state.set("message", "logged")?;
            Ok(())
        }
    }

    let mut builder = Builder::<LoggingState>::new();
    builder.add_node("logger", node(LoggingNode));
    builder.add_edge("__start__", name_set(vec!["logger".to_string()]));
    builder.add_edge("logger", name_set(vec!["__end__".to_string()]));

    let graph = builder.compile()?;
    let state = Arc::new(LoggingState::new());

    graph.invoke(state.clone())?;

    let message: Option<String> = state.get("message")?;
    assert_eq!(message, Some("logged".to_string()));

    let logs = state.get_logs();
    assert!(logs.iter().any(|log| log.contains("SET message")));

    Ok(())
}

#[test]
fn test_json_null_value_handling() -> Result<(), LangGraphError> {
    let state = Arc::new(MemoryState::new());

    state.set("null_key", Value::Null)?;

    let value: Value = state.get("null_key")?.unwrap();
    assert!(value.is_null(), "Should be able to store and retrieve null");

    Ok(())
}

#[test]
fn test_json_array_with_nulls() -> Result<(), LangGraphError> {
    let state = Arc::new(MemoryState::new());

    let array_with_nulls = Value::Array(vec![
        Value::from(1),
        Value::Null,
        Value::from(3),
        Value::Null,
        Value::from(5),
    ]);
    state.set("array", array_with_nulls)?;

    let retrieved: Value = state.get("array")?.unwrap();
    assert!(retrieved.is_array(), "Should be an array");
    assert_eq!(retrieved.as_array().unwrap().len(), 5);

    Ok(())
}

#[test]
fn test_deeply_nested_json_structure() -> Result<(), LangGraphError> {
    let state = Arc::new(MemoryState::new());

    let mut deep_nested = Value::from("deep_value");
    for level in (1..=10).rev() {
        let mut object = serde_json::Map::new();
        object.insert(format!("l{}", level), deep_nested);
        deep_nested = Value::Object(object);
    }

    state.set("deep", deep_nested)?;

    let retrieved: Value = state.get("deep")?.unwrap();
    let deep_value = retrieved["l1"]["l2"]["l3"]["l4"]["l5"]["l6"]["l7"]["l8"]["l9"]["l10"]
        .as_str()
        .unwrap();

    assert_eq!(deep_value, "deep_value");

    Ok(())
}

#[test]
fn test_special_characters_in_json_keys_and_values() -> Result<(), LangGraphError> {
    let state = Arc::new(MemoryState::new());

    state.set("key with spaces", "value1")?;
    state.set("key-with-dashes", "value2")?;
    state.set("key.with.dots", "value3")?;
    state.set("中文键名", "中文值")?;
    state.set("emoji😀key", "emoji value")?;

    state.set("unicode", "éàü 日本語 🎉")?;

    assert_eq!(
        state.get::<String>("key with spaces")?,
        Some("value1".to_string())
    );
    assert_eq!(
        state.get::<String>("key-with-dashes")?,
        Some("value2".to_string())
    );
    assert_eq!(
        state.get::<String>("key.with.dots")?,
        Some("value3".to_string())
    );
    assert_eq!(
        state.get::<String>("中文键名")?,
        Some("中文值".to_string())
    );
    assert_eq!(
        state.get::<String>("emoji😀key")?,
        Some("emoji value".to_string())
    );
    assert_eq!(
        state.get::<String>("unicode")?,
        Some("éàü 日本語 🎉".to_string())
    );

    Ok(())
}

#[test]
fn test_all_error_variants_display() {
    let errors: Vec<LangGraphError> = vec![
        LangGraphError::NodeError("node error".to_string()),
        LangGraphError::StateError("state error".to_string()),
        LangGraphError::GraphError("graph error".to_string()),
        LangGraphError::NotFound("not found".to_string()),
        LangGraphError::Timeout("timeout".to_string()),
        LangGraphError::RetryExhausted("retry exhausted".to_string()),
    ];

    for error in errors {
        let display = error.to_string();
        assert!(!display.is_empty(), "Error display should not be empty");
        assert!(display.len() > 10, "Error display should be descriptive");
    }
}

#[test]
fn test_error_debug_formatting() {
    let error = LangGraphError::NodeError("test error".to_string());
    let debug_output = format!("{:?}", error);
    assert!(
        debug_output.contains("NodeError"),
        "Debug should contain variant name"
    );
}

#[test]
fn test_error_from_string_conversion() {
    let error: LangGraphError = "string message".into();
    match error {
        LangGraphError::NodeError(msg) => assert_eq!(msg, "string message"),
        _ => panic!("From<&str> should create NodeError"),
    }

    let error2: LangGraphError = "owned string".to_string().into();
    match error2 {
        LangGraphError::NodeError(msg) => assert_eq!(msg, "owned string"),
        _ => panic!("From<String> should create NodeError"),
    }
}

#[derive(Debug, Clone)]
struct IncrementNode;
impl AgentNode<MemoryState> for IncrementNode {
    fn apply(&self, state: Arc<MemoryState>) -> Result<(), LangGraphError> {
        let count: i32 = state.get("count")?.unwrap_or(0);
        state.set("count", count + 1)?;
        Ok(())
    }
}

#[test]
fn test_graph_reusability_with_different_states() -> Result<(), LangGraphError> {
    let mut builder = Builder::<MemoryState>::new();
    builder.add_node("increment", node(IncrementNode));
    builder.add_edge("__start__", name_set(vec!["increment".to_string()]));
    builder.add_edge("increment", name_set(vec!["__end__".to_string()]));

    let graph = builder.compile()?;

    let state1 = Arc::new(MemoryState::new());
    graph.invoke(state1.clone())?;
    let count1: i32 = state1.get("count")?.unwrap();
    assert_eq!(count1, 1);

    let state2 = Arc::new(MemoryState::new());
    graph.invoke(state2.clone())?;
    let count2: i32 = state2.get("count")?.unwrap();
    assert_eq!(count2, 1);

    graph.invoke(state1.clone())?;
    let count3: i32 = state1.get("count")?.unwrap();
    assert_eq!(count3, 2);

    let count2_again: i32 = state2.get("count")?.unwrap();
    assert_eq!(count2_again, 1, "Different states should be isolated");

    Ok(())
}

#[test]
fn test_parallel_graph_execution_independence() -> Result<(), LangGraphError> {
    let mut builder = Builder::<MemoryState>::new();
    builder.add_node("increment", node(IncrementNode));
    builder.add_edge("__start__", name_set(vec!["increment".to_string()]));
    builder.add_edge("increment", name_set(vec!["__end__".to_string()]));

    let graph = builder.compile()?;

    let state_a = Arc::new(MemoryState::new());
    let state_b = Arc::new(MemoryState::new());
    let state_c = Arc::new(MemoryState::new());

    graph.invoke(state_a.clone())?;
    graph.invoke(state_b.clone())?;
    graph.invoke(state_c.clone())?;

    assert_eq!(state_a.get::<i32>("count")?, Some(1));
    assert_eq!(state_b.get::<i32>("count")?, Some(1));
    assert_eq!(state_c.get::<i32>("count")?, Some(1));

    Ok(())
}

#[test]
fn test_conditional_edge_returns_nonexistent_node() -> Result<(), LangGraphError> {
    struct RouterNode;
    impl AgentNode<MemoryState> for RouterNode {
        fn apply(&self, _state: Arc<MemoryState>) -> Result<(), LangGraphError> {
            Ok(())
        }
    }

    let mut builder = Builder::<MemoryState>::new();
    builder.add_node("router", node(RouterNode));
    builder.add_node("valid_target", node(IncrementNode));

    builder.add_edge("__start__", name_set(vec!["router".to_string()]));

    builder.add_conditional_edge(
        "router",
        vec![Box::new(|_state| "nonexistent_node".to_string())],
    );

    builder.add_edge("valid_target", name_set(vec!["__end__".to_string()]));

    let graph = builder.compile()?;
    let state = Arc::new(MemoryState::new());

    let result = graph.invoke(state);
    assert!(
        result.is_ok(),
        "Conditional edge returning nonexistent node silently completes"
    );

    Ok(())
}

#[test]
fn test_conditional_edge_returns_empty_string() -> Result<(), LangGraphError> {
    struct EmptyRouter;
    impl AgentNode<MemoryState> for EmptyRouter {
        fn apply(&self, _state: Arc<MemoryState>) -> Result<(), LangGraphError> {
            Ok(())
        }
    }

    let mut builder = Builder::<MemoryState>::new();
    builder.add_node("router", node(EmptyRouter));
    builder.add_edge("__start__", name_set(vec!["router".to_string()]));

    builder.add_conditional_edge("router", vec![Box::new(|_state| String::new())]);

    let graph = builder.compile()?;
    let state = Arc::new(MemoryState::new());

    let result = graph.invoke(state);
    assert!(
        result.is_ok(),
        "Conditional edge returning empty string silently completes"
    );

    Ok(())
}

#[test]
fn missing_scenarios_test_test_very_long_node_name() -> Result<(), LangGraphError> {
    let long_name = "node_".repeat(100);

    let mut builder = Builder::<MemoryState>::new();
    builder.add_node(&long_name, node(IncrementNode));
    builder.add_edge("__start__", name_set(vec![long_name.clone()]));
    builder.add_edge(&long_name, name_set(vec!["__end__".to_string()]));

    let graph = builder.compile()?;
    let state = Arc::new(MemoryState::new());

    graph.invoke(state.clone())?;

    let count: i32 = state.get("count")?.unwrap();
    assert_eq!(count, 1);

    Ok(())
}

#[test]
fn test_many_edges_from_single_node() -> Result<(), LangGraphError> {
    let mut builder = Builder::<MemoryState>::new();

    let mut targets = NameSet::new();
    for i in 0..100 {
        let node_name = format!("target_{}", i);
        builder.add_node(&node_name, node(IncrementNode));
        targets.insert(node_name);
    }

    builder.add_edge("__start__", targets.copy());

    for target in &targets.to_vec() {
        builder.add_edge(target, name_set(vec!["__end__".to_string()]));
    }

    let graph = builder.compile()?;
    let state = Arc::new(MemoryState::new());

    graph.invoke(state.clone())?;

    let count: i32 = state.get("count")?.unwrap();
    assert_eq!(count, 100, "All 100 nodes should execute");

    Ok(())
}

#[test]
fn test_rapid_state_updates() -> Result<(), LangGraphError> {
    let state = Arc::new(MemoryState::new());

    for i in 0..1000 {
        state.set("rapid_key", i)?;
    }

    let final_value: i32 = state.get("rapid_key")?.unwrap();
    assert_eq!(final_value, 999);

    for i in 0..500 {
        state.set(&format!("key_a_{}", i), i)?;
        state.set(&format!("key_b_{}", i), i * 2)?;
    }

    for i in 0..500 {
        let a: i32 = state.get(&format!("key_a_{}", i))?.unwrap();
        let b: i32 = state.get(&format!("key_b_{}", i))?.unwrap();
        assert_eq!(a, i);
        assert_eq!(b, i * 2);
    }

    Ok(())
}

//! The parts that runs are made of, exact messages, and laws on concrete values.

use std::sync::{Arc, Mutex};
use std::time::Duration;

use langgraph4rust::agent_state::decoded;
use langgraph4rust::execution::Origin;
use langgraph4rust::graph_validator::GraphValidator;
use langgraph4rust::state_graph::{first_error, BatchEntry};
use langgraph4rust::state_graph_stream::{
    batch_apply_with_events, fail, run_node_with_events, step_started, StreamEntry, StreamExit,
};
use langgraph4rust::text::to_decimal;
use langgraph4rust::{
    AgentNode, DefaultMemoryState, LangGraphError, NameMap, NameSet, StateGraph,
    StateGraphBuilder, StreamEvent, END_NODE, START_NODE,
};
use serde_json::Value;

/// The names of the nodes that ran, in their order.
type Log = Mutex<Vec<String>>;

/// A node that notes that it ran, and fails if it is told to.
struct Step {
    name: &'static str,
    error: Option<&'static str>,
}

impl AgentNode<Log> for Step {
    fn apply(&self, state: Arc<Log>) -> Result<(), LangGraphError> {
        state.lock().unwrap().push(self.name.to_string());
        match self.error {
            Some(msg) => Err(LangGraphError::NodeError(msg.to_string())),
            None => Ok(()),
        }
    }
}

type Router = Box<dyn Fn(&Log) -> String>;

type Builder = StateGraphBuilder<Step, Router>;

type Graph = StateGraph<Step, Router>;

fn set(names: &[&str]) -> NameSet {
    NameSet::from_vec(names.iter().map(|name| name.to_string()).collect())
}

fn sorted(names: &NameSet) -> Vec<String> {
    let mut list = names.to_vec();
    list.sort();
    list
}

fn to(name: &'static str) -> Router {
    Box::new(move |_: &Log| name.to_string())
}

fn builder(nodes: &[&'static str]) -> Builder {
    let mut builder = Builder::new();
    for name in nodes {
        builder.add_node(name, Step { name, error: None });
    }
    builder
}

fn chain(nodes: &[&'static str], max_steps: usize) -> Graph {
    let mut builder = builder(nodes);
    let mut from = START_NODE;
    for name in nodes {
        builder.add_edge(from, set(&[name]));
        from = name;
    }
    builder.add_edge(from, set(&[END_NODE]));
    builder.set_max_steps(max_steps);
    builder.compile().ok().unwrap()
}

fn log() -> Arc<Log> {
    Arc::new(Mutex::new(Vec::new()))
}

fn ran(log: &Arc<Log>) -> Vec<String> {
    log.lock().unwrap().clone()
}

fn graph_error(result: Result<Graph, LangGraphError>) -> String {
    match result {
        Err(LangGraphError::GraphError(msg)) => msg,
        Err(other) => panic!("not an error of the graph: {:?}", other),
        Ok(_) => panic!("the graph should be rejected"),
    }
}

#[test]
fn numerals() {
    assert_eq!(to_decimal(0), "0");
    assert_eq!(to_decimal(9), "9");
    assert_eq!(to_decimal(10), "10");
    assert_eq!(to_decimal(40205), "40205");
    assert_eq!(to_decimal(usize::MAX), format!("{}", usize::MAX));
}

#[test]
fn error_texts() {
    assert_eq!(LangGraphError::NodeError("m".to_string()).to_string(), "Node error: m");
    assert_eq!(LangGraphError::StateError("m".to_string()).to_string(), "State error: m");
    assert_eq!(LangGraphError::GraphError("m".to_string()).to_string(), "Graph error: m");
    assert_eq!(LangGraphError::NotFound("m".to_string()).to_string(), "Not found: m");
    assert_eq!(LangGraphError::Timeout("m".to_string()).to_string(), "Timeout: m");
    assert_eq!(LangGraphError::RetryExhausted("".to_string()).to_string(), "Retry exhausted: ");
}

#[test]
fn name_sets_hold_each_name_once() {
    let mut names = set(&["b", "a", "b"]);
    assert_eq!(names.len(), 2);
    assert!(!names.insert("a".to_string()));
    assert!(names.insert("c".to_string()));
    assert!(names.contains(&"c".to_string()));
    assert!(names.remove(&"b".to_string()));
    assert!(!names.remove(&"b".to_string()));
    assert_eq!(sorted(&names), ["a", "c"]);
    names.extend_from_set(&set(&["a", "d"]));
    names.extend_from_list(&vec!["e".to_string(), "e".to_string()]);
    assert_eq!(sorted(&names), ["a", "c", "d", "e"]);
    assert!(NameSet::new().is_empty());
}

#[test]
fn name_maps_replace_values() {
    let mut map: NameMap<u8> = NameMap::new();
    assert!(map.is_empty());
    map.insert("a".to_string(), 1);
    map.insert("b".to_string(), 2);
    map.insert("a".to_string(), 3);
    assert_eq!(map.len(), 2);
    assert_eq!(map.get(&"a".to_string()), Some(&3));
    assert_eq!(map.get(&"c".to_string()), None);
    assert!(map.contains_key(&"b".to_string()));
    assert_eq!((map.name_at(1).as_str(), *map.value_at(1)), ("b", 2));
}

#[test]
fn rejection_messages() {
    let mut b = builder(&["a"]);
    b.set_max_steps(0);
    assert_eq!(graph_error(b.compile()), "max_steps must be greater than 0");

    let mut b = builder(&["a"]);
    b.set_start_node("");
    assert_eq!(graph_error(b.compile()), "Start node cannot be empty");

    let mut b = builder(&["a"]);
    b.set_end_node("");
    assert_eq!(graph_error(b.compile()), "End node cannot be empty");

    assert_eq!(graph_error(builder(&[]).compile()), "Graph must contain at least one node");
    assert_eq!(graph_error(builder(&[""]).compile()), "Node name cannot be empty");

    let mut b = builder(&["a"]);
    b.set_end_node(START_NODE);
    assert_eq!(graph_error(b.compile()), "Start node and end node cannot be the same");

    assert_eq!(
        graph_error(builder(&[START_NODE]).compile()),
        "Start node '__start__' cannot be a normal node"
    );
    assert_eq!(
        graph_error(builder(&["a"]).compile()),
        "Start node '__start__' must have at least one outgoing edge"
    );

    let mut b = builder(&["a"]);
    b.add_edge(START_NODE, set(&["a"])).add_edge("x", set(&["a"]));
    assert_eq!(graph_error(b.compile()), "Static edge source 'x' is not a registered node");

    let mut b = builder(&["a"]);
    b.add_edge(START_NODE, set(&["x"]));
    assert_eq!(
        graph_error(b.compile()),
        "Static edge target 'x' (from '__start__') is not a registered node"
    );

    let mut b = builder(&["a"]);
    b.add_edge(START_NODE, set(&["a"])).add_conditional_edge("x", vec![to("a")]);
    assert_eq!(graph_error(b.compile()), "Conditional edge source 'x' is not a registered node");

    let mut b = builder(&["a"]);
    b.add_edge(START_NODE, set(&["a"]));
    b.add_edge("a", set(&[END_NODE])).add_conditional_edge("a", vec![to(END_NODE)]);
    assert_eq!(
        graph_error(b.compile()),
        "Node 'a' cannot have both static edges and conditional edges"
    );
}

#[test]
fn an_empty_start_set_is_rejected() {
    let mut nodes = NameMap::new();
    nodes.insert("a".to_string(), 1u8);
    let definition: GraphValidator<u8, u8> = GraphValidator {
        max_steps: 1,
        nodes,
        edges: NameMap::new(),
        conditional_edges: NameMap::new(),
        start_nodes: NameSet::new(),
        end_node: "end".to_string(),
    };
    match definition.validate() {
        Err(LangGraphError::GraphError(msg)) => assert_eq!(msg, "Start node set cannot be empty"),
        _ => panic!("an empty start set should be rejected"),
    }
}

#[test]
fn the_first_broken_rule_is_reported() {
    let mut b = builder(&[""]);
    b.set_max_steps(0).set_end_node("");
    assert_eq!(graph_error(b.compile()), "max_steps must be greater than 0");
}

#[test]
fn custom_start_names_may_be_nodes() {
    let mut b = builder(&["a"]);
    b.set_start_node("a").add_edge("a", set(&[END_NODE]));
    let state = log();
    assert!(b.compile().ok().unwrap().invoke(Arc::clone(&state)).is_ok());
    assert_eq!(ran(&state), ["a"]);
}

#[test]
fn a_chain_runs_its_nodes_in_order() {
    let state = log();
    assert!(chain(&["a", "b", "c"], 5).invoke(Arc::clone(&state)).is_ok());
    assert_eq!(ran(&state), ["a", "b", "c"]);
}

#[test]
fn a_chain_needs_two_steps_more_than_nodes() {
    let events = chain(&["a", "b", "c"], 5).stream(log());
    assert_eq!(events.len(), 3 + 4 * 3);
    assert!(matches!(events.last(), Some(StreamEvent::WorkflowFinished { total_steps: 5, .. })));

    let events = chain(&["a", "b", "c"], 4).stream(log());
    match events.last() {
        Some(StreamEvent::WorkflowError { step: 4, error: LangGraphError::GraphError(msg), .. }) => {
            assert_eq!(
                msg,
                "Reached max_steps (4) without hitting the end node; \
                 the graph likely contains a cycle"
            );
        }
        _ => panic!("the budget is one step short"),
    }
}

#[test]
fn a_batch_forgives_a_used_up_budget() {
    let state = log();
    assert!(chain(&["a", "b", "c"], 2).invoke(Arc::clone(&state)).is_ok());
    assert_eq!(ran(&state), ["a"]);
}

#[test]
fn all_nodes_of_a_failing_step_run_and_no_others() {
    let mut b = builder(&["good", "later"]);
    b.add_node("bad", Step { name: "bad", error: Some("broken") });
    b.add_edge(START_NODE, set(&["bad", "good"]));
    b.add_edge("good", set(&["later"])).add_edge("bad", set(&["later"]));
    b.add_edge("later", set(&[END_NODE]));
    let graph = b.compile().ok().unwrap();

    let state = log();
    match graph.invoke(Arc::clone(&state)) {
        Err(LangGraphError::NodeError(msg)) => assert_eq!(msg, "broken"),
        other => panic!("unexpected result: {:?}", other),
    }
    let mut names = ran(&state);
    names.sort();
    assert_eq!(names, ["bad", "good"]);

    let events = graph.stream(log());
    assert!(matches!(
        events.last(),
        Some(StreamEvent::WorkflowError { step: 2, error: LangGraphError::NodeError(_), .. })
    ));
    let finished =
        events.iter().filter(|event| matches!(event, StreamEvent::NodeFinished { .. })).count();
    assert_eq!(finished, 2);
}

#[test]
fn dead_ends() {
    let mut b = builder(&["a"]);
    b.add_edge(START_NODE, set(&["a"]));
    match b.compile().ok().unwrap().invoke(log()) {
        Err(LangGraphError::GraphError(msg)) => assert_eq!(
            msg,
            "Dead-end: no outgoing edge leads on and the end node was not reached"
        ),
        other => panic!("unexpected result: {:?}", other),
    }
}

#[test]
fn one_branch_at_the_end_is_enough() {
    let mut b = builder(&["a", "b", "c"]);
    b.add_edge(START_NODE, set(&["a", "b"]));
    b.add_edge("a", set(&[END_NODE])).add_edge("b", set(&["c"]));
    let state = log();
    let graph = b.compile().ok().unwrap();
    assert!(graph.invoke(Arc::clone(&state)).is_ok());
    assert_eq!(ran(&state).last().map(String::as_str), Some("c"));
    let events = graph.stream(log());
    assert!(matches!(events.last(), Some(StreamEvent::WorkflowFinished { total_steps: 4, .. })));
}

#[test]
fn markers_must_lead_somewhere() {
    let mut b = builder(&["a"]);
    b.add_conditional_edge(START_NODE, vec![to("nowhere")]);
    let graph = b.compile().ok().unwrap();
    let state = log();
    match graph.invoke(Arc::clone(&state)) {
        Err(LangGraphError::NotFound(msg)) => {
            assert_eq!(msg, "Node 'nowhere' not found in graph");
        }
        other => panic!("unexpected result: {:?}", other),
    }
    assert!(ran(&state).is_empty());
    let events = graph.stream(log());
    assert_eq!(events.len(), 4);
    assert!(matches!(events.last(), Some(StreamEvent::WorkflowError { step: 3, .. })));
}

#[test]
fn several_unknown_names_are_not_named() {
    let mut b = builder(&["a"]);
    b.add_conditional_edge(START_NODE, vec![to("nowhere"), to("elsewhere")]);
    match b.compile().ok().unwrap().invoke(log()) {
        Err(LangGraphError::NotFound(msg)) => assert_eq!(msg, "Target nodes not found in graph"),
        other => panic!("unexpected result: {:?}", other),
    }

    let mut b = builder(&["a"]);
    b.add_conditional_edge(START_NODE, vec![to("nowhere"), to("nowhere")]);
    match b.compile().ok().unwrap().invoke(log()) {
        Err(LangGraphError::NotFound(msg)) => assert_eq!(msg, "Node 'nowhere' not found in graph"),
        other => panic!("unexpected result: {:?}", other),
    }
}

#[test]
fn unknown_names_beside_others_are_skipped() {
    let mut b = builder(&["a"]);
    b.add_conditional_edge(START_NODE, vec![to("nowhere"), to("a")]);
    b.add_edge("a", set(&[END_NODE]));
    let graph = b.compile().ok().unwrap();
    let state = log();
    assert!(graph.invoke(Arc::clone(&state)).is_ok());
    assert_eq!(ran(&state), ["a"]);
    let events = graph.stream(log());
    assert!(matches!(events.last(), Some(StreamEvent::WorkflowFinished { .. })));

    let mut b = builder(&["a"]);
    b.add_conditional_edge(START_NODE, vec![to("nowhere"), to(END_NODE)]);
    let graph = b.compile().ok().unwrap();
    assert!(graph.invoke(log()).is_ok());
    let events = graph.stream(log());
    assert!(matches!(events.last(), Some(StreamEvent::WorkflowFinished { .. })));
}

fn circle() -> Builder {
    let mut b = builder(&["node1", "node2"]);
    b.add_edge(START_NODE, set(&["node1"]));
    b.add_edge("node1", set(&["node2"])).add_edge("node2", set(&["node1"]));
    b
}

#[test]
fn circles_need_a_limit() {
    let message = "Graph contains a cycle of static edges; max_steps must be set";
    assert_eq!(graph_error(circle().compile()), message);

    let mut b = circle();
    b.set_max_steps(usize::MAX);
    assert_eq!(graph_error(b.compile()), message);

    let mut b = circle();
    b.set_max_steps(usize::MAX - 1);
    assert!(b.compile().is_ok());

    let mut b = builder(&["a"]);
    b.add_edge(START_NODE, set(&["a"])).add_edge("a", set(&["a", END_NODE]));
    assert_eq!(graph_error(b.compile()), message);

    let mut b = builder(&["a"]);
    b.add_edge(START_NODE, set(&["a"])).add_edge("a", set(&[START_NODE]));
    assert_eq!(graph_error(b.compile()), message);

    let mut b = builder(&["a", "b", "c"]);
    b.add_edge(START_NODE, set(&["a"])).add_edge("a", set(&[END_NODE]));
    b.add_edge("b", set(&["c"])).add_edge("c", set(&[END_NODE, "b"]));
    assert_eq!(graph_error(b.compile()), message);
}

#[test]
fn graphs_without_circles_need_no_limit() {
    let mut b = builder(&["d", "c", "b", "a"]);
    b.add_edge(START_NODE, set(&["a", "b"]));
    b.add_edge("a", set(&["b", "c", "d"])).add_edge("b", set(&["c", "d"]));
    b.add_edge("c", set(&["d"])).add_edge("d", set(&[END_NODE]));
    assert!(b.compile().is_ok());

    let mut b = builder(&["a"]);
    b.add_edge(START_NODE, set(&["a"])).add_conditional_edge("a", vec![to("a")]);
    assert!(b.compile().is_ok());
}

#[test]
fn edges_of_both_kinds_come_after_circles() {
    let mut b = circle();
    b.add_conditional_edge("node1", vec![to(END_NODE)]);
    assert_eq!(
        graph_error(b.compile()),
        "Graph contains a cycle of static edges; max_steps must be set"
    );
}

#[test]
fn the_error_of_a_batch_is_the_first_in_the_list() {
    let graph = chain(&["a"], 10);
    let one = Step { name: "one", error: Some("first") };
    let two = Step { name: "two", error: Some("second") };
    let good = Step { name: "good", error: None };
    let list = vec![
        ("x".to_string(), &good),
        ("y".to_string(), &two),
        ("z".to_string(), &one),
        ("x".to_string(), &good),
    ];
    let state = log();
    match graph.batch_apply(list, &state) {
        Err(LangGraphError::NodeError(msg)) => assert_eq!(msg, "second"),
        other => panic!("unexpected result: {:?}", other),
    }
    assert_eq!(ran(&state), ["good", "two", "one", "good"]);
    assert!(graph.batch_apply(Vec::new(), &state).is_ok());
}

#[test]
fn equal_contents_equal_runs_where_routers_read_the_state() {
    let mut b = builder(&["work"]);
    b.add_edge(START_NODE, set(&["work"]));
    b.add_conditional_edge("work", vec![Box::new(|state: &Log| {
        let rounds = state.lock().unwrap().len();
        if rounds < 4 { "work".to_string() } else { END_NODE.to_string() }
    })]);
    let graph = b.compile().ok().unwrap();
    let prepared = || Arc::new(Mutex::new(vec!["before".to_string()]));
    let (one, two, three) = (prepared(), prepared(), prepared());
    assert!(graph.invoke(Arc::clone(&one)).is_ok());
    assert!(graph.invoke(Arc::clone(&two)).is_ok());
    let events = graph.stream(Arc::clone(&three));
    assert_eq!(ran(&one), ["before", "work", "work", "work"]);
    assert_eq!(ran(&one), ran(&two));
    assert_eq!(ran(&one), ran(&three));
    assert!(matches!(events.last(), Some(StreamEvent::WorkflowFinished { total_steps: 5, .. })));

    let other = log();
    assert!(graph.invoke(Arc::clone(&other)).is_ok());
    assert_eq!(ran(&other).len(), 4);
    assert_eq!(ran(&one).len(), 4);
}

#[test]
fn equal_states_equal_runs() {
    let mut b = builder(&["a", "b"]);
    b.add_node("c", Step { name: "c", error: Some("broken") });
    b.add_edge(START_NODE, set(&["a"]));
    b.add_conditional_edge("a", vec![to("b")]).add_conditional_edge("b", vec![to("c")]);
    let graph = b.compile().ok().unwrap();
    let (one, two, three) = (log(), log(), log());
    let first = graph.invoke(Arc::clone(&one));
    let second = graph.invoke(Arc::clone(&two));
    let events = graph.stream(Arc::clone(&three));
    let text = first.err().unwrap().to_string();
    assert_eq!(text, "Node error: broken");
    assert_eq!(second.err().unwrap().to_string(), text);
    match events.last() {
        Some(StreamEvent::WorkflowError { step: 4, error, .. }) => {
            assert_eq!(error.to_string(), text);
        }
        _ => panic!("the stream should fail"),
    }
    assert_eq!(ran(&one), ["a", "b", "c"]);
    assert_eq!(ran(&one), ran(&two));
    assert_eq!(ran(&one), ran(&three));
}

#[test]
fn unknown_start_names_run_nothing() {
    let mut graph = chain(&["a"], 10);
    assert!(graph.set_start_nodes(vec!["x".to_string(), "y".to_string()]).is_ok());
    let state = log();
    assert!(graph.invoke(Arc::clone(&state)).is_ok());
    assert!(ran(&state).is_empty());

    assert!(graph.set_start_nodes(vec!["x".to_string(), "a".to_string()]).is_ok());
    assert!(graph.invoke(Arc::clone(&state)).is_ok());
    assert_eq!(ran(&state), ["a"]);
}

#[test]
fn empty_start_names_take_no_step() {
    let mut graph = chain(&["a"], 10);
    assert!(graph.set_start_nodes(Vec::new()).is_ok());
    let state = log();
    assert!(graph.invoke(Arc::clone(&state)).is_ok());
    assert!(ran(&state).is_empty());
    let events = graph.stream(Arc::clone(&state));
    assert_eq!(events.len(), 2);
    assert!(matches!(events[1], StreamEvent::WorkflowError { step: 1, .. }));
}

#[test]
fn the_start_marker_tells_only_its_route() {
    let events = chain(&["a"], 10).stream(log());
    match &events[1] {
        StreamEvent::RoutingDecision { step: 1, from_nodes, to_nodes } => {
            assert_eq!(from_nodes, &[START_NODE]);
            assert_eq!(to_nodes, &["a"]);
        }
        other => panic!("unexpected event: {:?}", other),
    }
}

#[test]
fn steps_of_a_cursor() {
    let graph = chain(&["a"], 10);
    let mut cursor = graph.begin();
    assert_eq!((cursor.step, cursor.reached_end), (0, false));
    assert!(cursor.origin == Origin::Start);

    assert!(matches!(graph.batch_enter(&mut cursor), BatchEntry::Step(nodes) if nodes.is_empty()));
    assert!(graph.batch_leave(&mut cursor, &*log(), Ok(())).is_ok());
    assert!(cursor.origin == Origin::Markers);
    assert_eq!(sorted(&cursor.current), ["a"]);

    match graph.batch_enter(&mut cursor) {
        BatchEntry::Step(nodes) => {
            assert_eq!(nodes.len(), 1);
            assert_eq!((nodes[0].0.as_str(), nodes[0].1.name), ("a", "a"));
        }
        BatchEntry::Finish(_) => panic!("the run is not over"),
    }
    assert!(graph.batch_leave(&mut cursor, &*log(), Ok(())).is_ok());
    assert!(cursor.origin == Origin::Nodes);
    assert_eq!(sorted(&cursor.current), [END_NODE]);

    assert!(matches!(graph.batch_enter(&mut cursor), BatchEntry::Finish(Ok(()))));
    assert_eq!((cursor.step, cursor.reached_end), (3, true));
}

#[test]
fn stray_names_lead_nowhere() {
    let graph = chain(&["a"], 10);
    let mut cursor = graph.begin();
    graph.advance(&mut cursor, set(&["x"]));
    graph.enter(&mut cursor);
    assert!(graph.batch_leave(&mut cursor, &*log(), Ok(())).is_ok());
    assert!(cursor.origin == Origin::Strays);
    assert!(cursor.current.is_empty());
}

#[test]
fn successors_of_several_names() {
    let mut b = builder(&["a", "b", "c"]);
    b.add_edge(START_NODE, set(&["a", "b"]));
    b.add_edge("a", set(&["c", END_NODE]));
    b.add_conditional_edge("b", vec![to("c"), to("a"), to("c")]);
    let graph = b.compile().ok().unwrap();

    let routes = graph.evaluate_routers(&set(&["a", "b"]), &log());
    assert_eq!(routes.get(&"b".to_string()), Some(&vec![
        "c".to_string(),
        "a".to_string(),
        "c".to_string(),
    ]));
    assert_eq!(routes.len(), 1);
    let next = graph.successors(&set(&["a", "b"]), &routes);
    assert_eq!(sorted(&next), ["__end__", "a", "c"]);
    assert!(graph.get_next_node_key(&NameSet::new(), &log()).unwrap().is_empty());
    assert_eq!(sorted(&graph.get_next_node_key(&set(&["b"]), &log()).unwrap()), ["a", "c"]);
}

#[test]
fn nodes_by_name() {
    let graph = chain(&["a", "b"], 10);
    assert_eq!(graph.get_node_by_key(&"a".to_string()).map(|node| node.name), Some("a"));
    assert!(graph.get_node_by_key(&START_NODE.to_string()).is_none());
    let nodes = graph.get_node_by_keys(&set(&["b", "x", "a"]));
    let mut names: Vec<&str> = nodes.iter().map(|(_, node)| node.name).collect();
    names.sort();
    assert_eq!(names, ["a", "b"]);
    assert!(graph.is_end_node(&set(&["a", END_NODE])));
    assert!(!graph.is_end_node(&set(&["a"])));
    assert!(!graph.is_end_node(&NameSet::new()));
    assert_eq!(graph.max_steps(), 10);
}

#[test]
fn the_first_error_counts() {
    assert!(first_error(Vec::new()).is_ok());
    assert!(first_error(vec![Ok(()), Ok(())]).is_ok());
    let outcomes = vec![Ok(()), Err("one".into()), Err("two".into()), Ok(())];
    match first_error(outcomes) {
        Err(LangGraphError::NodeError(msg)) => assert_eq!(msg, "one"),
        other => panic!("unexpected result: {:?}", other),
    }
}

#[test]
fn events_of_a_node() {
    let node = Step { name: "a", error: Some("broken") };
    let mut events = Vec::new();
    let result = run_node_with_events(&mut events, &"a".to_string(), &node, &log(), 7);
    assert!(matches!(result, Err(LangGraphError::NodeError(_))));
    assert_eq!(events.len(), 2);
    assert!(matches!(&events[0], StreamEvent::NodeStarted { step: 7, name } if name == "a"));
    assert!(matches!(&events[1], StreamEvent::NodeFinished { step: 7, name, .. } if name == "a"));
}

#[test]
fn events_of_a_step() {
    let graph = chain(&["a", "b"], 10);
    let nodes = graph.get_node_by_keys(&set(&["a", "b"]));
    let event: StreamEvent<Log> = step_started(3, &nodes);
    assert!(matches!(&event, StreamEvent::StepStarted { step: 3, nodes } if nodes.len() == 2));
    let mut events = Vec::new();
    assert!(batch_apply_with_events(&mut events, &nodes, &log(), 3).is_ok());
    assert_eq!(events.len(), 4);
}

#[test]
fn events_of_an_end() {
    let graph = chain(&["a"], 4);
    let state = log();
    let mut cursor = graph.begin();
    cursor.step = 4;
    match graph.stream_enter(&mut cursor, &state, Duration::ZERO) {
        StreamEntry::Finish(StreamEvent::WorkflowError { step: 4, state: carried, .. }) => {
            assert!(Arc::ptr_eq(&carried, &state));
        }
        _ => panic!("the budget is used up"),
    }
    cursor.reached_end = true;
    match graph.stream_enter(&mut cursor, &state, Duration::from_millis(5)) {
        StreamEntry::Finish(StreamEvent::WorkflowFinished { total_steps: 4, elapsed, .. }) => {
            assert_eq!(elapsed, Duration::from_millis(5));
        }
        _ => panic!("the end was reached"),
    }
    assert!(matches!(
        fail(&state, 2, "broken".into()),
        StreamEvent::WorkflowError { step: 2, error: LangGraphError::NodeError(_), .. }
    ));
}

#[test]
fn a_failed_step_is_not_left() {
    let graph = chain(&["a"], 10);
    let state = log();
    let mut cursor = graph.begin();
    graph.enter(&mut cursor);
    let exit = graph.stream_leave(&mut cursor, &state, Err("broken".into()));
    assert!(matches!(exit, StreamExit::Fail(StreamEvent::WorkflowError { step: 1, .. })));
    assert!(graph.batch_leave(&mut cursor, &*state, Err("broken".into())).is_err());
    assert_eq!(sorted(&cursor.current), [START_NODE]);
}

#[test]
fn stream_steps_of_a_cursor() {
    let graph = chain(&["a"], 2);
    let state = log();
    let mut cursor = graph.begin();
    assert!(matches!(
        graph.stream_enter(&mut cursor, &state, Duration::ZERO),
        StreamEntry::Step { announcement: None, nodes } if nodes.is_empty()
    ));
    let exit = graph.stream_leave(&mut cursor, &state, Ok(()));
    assert!(matches!(exit, StreamExit::Routed(StreamEvent::RoutingDecision { step: 1, .. })));
    assert!(matches!(
        graph.stream_enter(&mut cursor, &state, Duration::ZERO),
        StreamEntry::Step { announcement: Some(StreamEvent::StepStarted { step: 2, .. }), nodes }
            if nodes.len() == 1
    ));
    graph.stream_leave(&mut cursor, &state, Ok(()));
    assert!(graph.is_exhausted(&cursor));
    assert!(matches!(
        graph.stream_enter(&mut cursor, &state, Duration::ZERO),
        StreamEntry::Finish(StreamEvent::WorkflowError { step: 2, .. })
    ));
}

#[test]
fn the_later_definition_wins() {
    let mut b = builder(&["a", "b"]);
    b.add_node("a", Step { name: "other", error: None });
    b.add_edge(START_NODE, set(&["b"])).add_edge(START_NODE, set(&["a"]));
    b.add_conditional_edge("a", vec![to("b")]).add_conditional_edge("a", vec![to(END_NODE)]);
    let state = log();
    assert!(b.compile().ok().unwrap().invoke(Arc::clone(&state)).is_ok());
    assert_eq!(ran(&state), ["other"]);
}

#[test]
fn memory_reads_give_what_was_written() {
    let mut memory = DefaultMemoryState::default();
    assert_eq!(memory.get("a"), None);
    assert!(matches!(memory.set("a", Ok(Value::from(1))), Ok(true)));
    assert!(matches!(memory.set("b", Ok(Value::from("x"))), Ok(true)));
    assert_eq!(memory.get("a"), Some(Value::from(1)));
    assert!(matches!(memory.set("a", Ok(Value::Null)), Ok(true)));
    assert_eq!(memory.get("a"), Some(Value::Null));
    assert_eq!(memory.get("a"), Some(Value::Null));
    assert_eq!(memory.get("b"), Some(Value::from("x")));
    assert_eq!(memory.snapshot(1, vec!["a".to_string()]), Ok(()));
}

#[test]
fn memory_reports_what_it_cannot_store() {
    let mut memory = DefaultMemoryState::new();
    assert!(memory.set("a", Ok(Value::from(1))).is_ok());
    let cause = serde_json::from_str::<Value>("{").err().unwrap();
    let text = cause.to_string();
    match memory.set("a", Err(cause)) {
        Err(LangGraphError::StateError(msg)) => {
            assert_eq!(msg, format!("Serialization error: {}", text));
        }
        other => panic!("unexpected result: {:?}", other),
    }
    assert_eq!(memory.get("a"), Some(Value::from(1)));
}

#[test]
fn reading_reports_what_it_cannot_decode() {
    let none: Option<Result<u8, serde_json::Error>> = None;
    assert!(matches!(decoded(none), Ok(None)));
    assert!(matches!(decoded(Some(serde_json::from_value::<u8>(Value::from(5)))), Ok(Some(5))));
    let failed = serde_json::from_value::<u8>(Value::from("x"));
    let text = failed.as_ref().err().unwrap().to_string();
    match decoded(Some(failed)) {
        Err(LangGraphError::StateError(msg)) => {
            assert_eq!(msg, format!("Deserialization error: {}", text));
        }
        other => panic!("unexpected result: {:?}", other),
    }
}

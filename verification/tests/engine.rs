use kiteflow::data::{
    ConditionItemCompareMode, Edge, Node, NodeDataActionLog, NodeDataActionResponseText,
    NodeDataConditionCompare, NodeDataConditionItemCompare, NodeDataEntryCommand,
    NodeDataEntryError, NodeDataEntryEvent, NodeDataOptionText,
};
use kiteflow::event::{DispatchError, Effect, EventContext};
use kiteflow::tree::{FlowNode, FlowTree};

fn edge(id: &str, source: &str, target: &str) -> Edge {
    Edge { id: id.to_string(), source: source.to_string(), target: target.to_string() }
}

fn entry_event(id: &str, event_type: &str) -> Node {
    Node::EntryEvent {
        id: id.to_string(),
        data: NodeDataEntryEvent { event_type: event_type.to_string() },
    }
}

fn entry_command(id: &str, name: &str, description: &str) -> Node {
    Node::EntryCommand {
        id: id.to_string(),
        data: NodeDataEntryCommand { name: name.to_string(), description: description.to_string() },
    }
}

fn entry_error(id: &str) -> Node {
    Node::EntryError { id: id.to_string(), data: NodeDataEntryError {} }
}

fn option_text(id: &str, name: &str, description: &str, required: bool) -> Node {
    Node::OptionText {
        id: id.to_string(),
        data: NodeDataOptionText {
            name: name.to_string(),
            description: description.to_string(),
            required,
        },
    }
}

fn action_log(id: &str, level: &str, message: &str) -> Node {
    Node::ActionLog {
        id: id.to_string(),
        data: NodeDataActionLog {
            log_level: level.to_string(),
            log_message: message.to_string(),
        },
    }
}

fn action_response(id: &str, text: &str) -> Node {
    Node::ActionResponseText {
        id: id.to_string(),
        data: NodeDataActionResponseText { text: text.to_string() },
    }
}

fn condition(id: &str, base_value: &str, allow_multiple: bool) -> Node {
    Node::ConditionCompare {
        id: id.to_string(),
        data: NodeDataConditionCompare {
            condition_base_value: base_value.to_string(),
            condition_allow_multiple: allow_multiple,
        },
    }
}

fn item_compare(id: &str, mode: ConditionItemCompareMode, value: &str) -> Node {
    Node::ConditionItemCompare {
        id: id.to_string(),
        data: NodeDataConditionItemCompare {
            condition_item_mode: mode,
            condition_item_value: value.to_string(),
        },
    }
}

fn item_else(id: &str) -> Node {
    Node::ConditionItemElse { id: id.to_string() }
}

fn log_effect(level: &str, message: &str) -> Effect {
    Effect::Log { level: level.to_string(), message: message.to_string() }
}

fn dispatch(tree: &FlowTree, kind: &str) -> Result<Vec<Effect>, DispatchError> {
    let mut ctx = EventContext::new();
    tree.handle_event(&mut ctx, &kind.to_string())
}

fn next_of(tree: &FlowTree, k: usize) -> Vec<usize> {
    match &tree.nodes[k] {
        FlowNode::EntryCommand { next, .. } => next.clone(),
        FlowNode::EntryEvent { next, .. } => next.clone(),
        FlowNode::ActionLog { next, .. } => next.clone(),
        FlowNode::ActionResponseText { next, .. } => next.clone(),
        FlowNode::ConditionItemCompare { next, .. } => next.clone(),
        FlowNode::ConditionItemElse { next, .. } => next.clone(),
        _ => Vec::new(),
    }
}

#[test]
fn identity_shared_instance() {
    // Two references to one id resolve to the same shared slot.
    let nodes = vec![
        entry_event("e1", "GO"),
        action_log("a", "info", "a"),
        action_log("b", "info", "b"),
        action_log("s", "info", "shared"),
    ];
    let edges = vec![
        edge("1", "e1", "a"),
        edge("2", "e1", "b"),
        edge("3", "a", "s"),
        edge("4", "b", "s"),
    ];
    let tree = FlowTree::new(&nodes, &edges);
    assert_eq!(tree.entries.len(), 1);
    let e1 = tree.entries[0];
    let succ = next_of(&tree, e1);
    assert_eq!(succ.len(), 2);
    let from_a = next_of(&tree, succ[0]);
    let from_b = next_of(&tree, succ[1]);
    assert_eq!(from_a.len(), 1);
    assert_eq!(from_b.len(), 1);
    assert_eq!(from_a[0], from_b[0]);
    // Exactly one runtime instance exists for the shared id.
    assert_eq!(tree.nodes.len(), 4);
}

#[test]
fn cycle_terminates_with_mutual_references() {
    // A -> B -> A: construction terminates with two instances referencing
    // each other.
    let nodes = vec![entry_event("a", "GO"), action_log("b", "info", "b")];
    let edges = vec![edge("1", "a", "b"), edge("2", "b", "a")];
    let tree = FlowTree::new(&nodes, &edges);
    assert_eq!(tree.nodes.len(), 2);
    assert_eq!(tree.entries.len(), 1);
    let a = tree.entries[0];
    let a_next = next_of(&tree, a);
    assert_eq!(a_next.len(), 1);
    let b = a_next[0];
    assert_ne!(a, b);
    let b_next = next_of(&tree, b);
    assert_eq!(b_next, vec![a]);
}

#[test]
fn dangling_edge_is_dropped() {
    let nodes = vec![entry_event("x", "GO")];
    let edges = vec![edge("1", "x", "missing")];
    let tree = FlowTree::new(&nodes, &edges);
    assert_eq!(tree.entries.len(), 1);
    assert_eq!(next_of(&tree, tree.entries[0]), Vec::<usize>::new());
    assert_eq!(dispatch(&tree, "GO"), Ok(vec![]));
}

fn condition_graph(allow_multiple: bool) -> (Vec<Node>, Vec<Edge>) {
    let nodes = vec![
        entry_event("e1", "GO"),
        condition("c", "a", allow_multiple),
        item_compare("i1", ConditionItemCompareMode::Equal, "a"),
        item_compare("i2", ConditionItemCompareMode::Equal, "a"),
        action_log("l1", "info", "first"),
        action_log("l2", "info", "second"),
    ];
    let edges = vec![
        edge("1", "e1", "c"),
        edge("2", "i1", "c"),
        edge("3", "i2", "c"),
        edge("4", "i1", "l1"),
        edge("5", "i2", "l2"),
    ];
    (nodes, edges)
}

#[test]
fn first_match_executes_only_first_subtree() {
    let (nodes, edges) = condition_graph(false);
    let tree = FlowTree::new(&nodes, &edges);
    assert_eq!(dispatch(&tree, "GO"), Ok(vec![log_effect("info", "first")]));
}

#[test]
fn all_match_executes_both_subtrees() {
    let (nodes, edges) = condition_graph(true);
    let tree = FlowTree::new(&nodes, &edges);
    assert_eq!(
        dispatch(&tree, "GO"),
        Ok(vec![log_effect("info", "first"), log_effect("info", "second")])
    );
}

#[test]
fn fallback_runs_only_when_unhandled() {
    let nodes = vec![
        entry_event("e1", "GO"),
        condition("c", "a", false),
        item_compare("i1", ConditionItemCompareMode::Equal, "b"),
        item_else("els"),
        action_log("l1", "info", "matched"),
        action_log("l2", "info", "fallback"),
    ];
    let edges = vec![
        edge("1", "e1", "c"),
        edge("2", "i1", "c"),
        edge("3", "els", "c"),
        edge("4", "i1", "l1"),
        edge("5", "els", "l2"),
    ];
    let tree = FlowTree::new(&nodes, &edges);
    assert_eq!(dispatch(&tree, "GO"), Ok(vec![log_effect("info", "fallback")]));
}

#[test]
fn fallback_skipped_when_handled() {
    let nodes = vec![
        entry_event("e1", "GO"),
        condition("c", "a", false),
        item_compare("i1", ConditionItemCompareMode::Equal, "a"),
        item_else("els"),
        action_log("l1", "info", "matched"),
        action_log("l2", "info", "fallback"),
    ];
    let edges = vec![
        edge("1", "e1", "c"),
        edge("2", "i1", "c"),
        edge("3", "els", "c"),
        edge("4", "i1", "l1"),
        edge("5", "els", "l2"),
    ];
    let tree = FlowTree::new(&nodes, &edges);
    assert_eq!(dispatch(&tree, "GO"), Ok(vec![log_effect("info", "matched")]));
}

#[test]
fn last_fallback_wins() {
    let nodes = vec![
        entry_event("e1", "GO"),
        condition("c", "a", false),
        item_else("els1"),
        item_compare("i1", ConditionItemCompareMode::Equal, "b"),
        item_else("els2"),
        action_log("l1", "info", "early fallback"),
        action_log("l2", "info", "late fallback"),
    ];
    let edges = vec![
        edge("1", "e1", "c"),
        edge("2", "els1", "c"),
        edge("3", "i1", "c"),
        edge("4", "els2", "c"),
        edge("5", "els1", "l1"),
        edge("6", "els2", "l2"),
    ];
    let tree = FlowTree::new(&nodes, &edges);
    assert_eq!(dispatch(&tree, "GO"), Ok(vec![log_effect("info", "late fallback")]));
}

#[test]
fn not_equal_mode_matches() {
    let nodes = vec![
        entry_event("e1", "GO"),
        condition("c", "a", false),
        item_compare("i1", ConditionItemCompareMode::NotEqual, "b"),
        action_log("l1", "info", "differs"),
    ];
    let edges = vec![edge("1", "e1", "c"), edge("2", "i1", "c"), edge("3", "i1", "l1")];
    let tree = FlowTree::new(&nodes, &edges);
    assert_eq!(dispatch(&tree, "GO"), Ok(vec![log_effect("info", "differs")]));
}

#[test]
fn unimplemented_mode_fails_loudly() {
    let nodes = vec![
        entry_event("e1", "GO"),
        condition("c", "a", false),
        item_compare("i1", ConditionItemCompareMode::GreaterThan, "b"),
    ];
    let edges = vec![edge("1", "e1", "c"), edge("2", "i1", "c")];
    let tree = FlowTree::new(&nodes, &edges);
    assert_eq!(dispatch(&tree, "GO"), Err(DispatchError::UnimplementedMode));
}

#[test]
fn depth_counter_returns_to_zero() {
    let (nodes, edges) = condition_graph(true);
    let tree = FlowTree::new(&nodes, &edges);
    let mut ctx = EventContext::new();
    assert_eq!(ctx.depth, 0);
    let r = tree.handle_event(&mut ctx, &"GO".to_string());
    assert!(r.is_ok());
    assert_eq!(ctx.depth, 0);
}

#[test]
fn depth_counter_restored_after_abort() {
    let nodes = vec![entry_event("a", "GO"), entry_event("b", "GO")];
    let edges = vec![edge("1", "a", "b"), edge("2", "b", "a")];
    let tree = FlowTree::new(&nodes, &edges);
    let mut ctx = EventContext::new();
    let r = tree.handle_event(&mut ctx, &"GO".to_string());
    assert_eq!(r, Err(DispatchError::DepthExceeded));
    assert_eq!(ctx.depth, 0);
}

#[test]
fn entry_kind_gating() {
    let nodes = vec![entry_event("e1", "FOO"), action_log("a1", "info", "fired")];
    let edges = vec![edge("1", "e1", "a1")];
    let tree = FlowTree::new(&nodes, &edges);
    assert_eq!(dispatch(&tree, "BAR"), Ok(vec![]));
    assert_eq!(dispatch(&tree, "FOO"), Ok(vec![log_effect("info", "fired")]));
}

#[test]
fn end_to_end_initiate() {
    let nodes = vec![entry_event("e1", "INITIATE"), action_log("a1", "info", "hi")];
    let edges = vec![edge("1", "e1", "a1")];
    let tree = FlowTree::new(&nodes, &edges);
    let event = kiteflow::host::Event {
        app_id: String::new(),
        guild_id: String::new(),
        data: kiteflow::host::EventData::Initiate,
    };
    let effects = kiteflow::host::handle_event(&tree, &event).unwrap();
    assert_eq!(effects, vec![log_effect("info", "hi")]);
}

#[test]
fn recursion_limit_reported_as_module_error() {
    let nodes = vec![entry_event("a", "INITIATE"), entry_event("b", "INITIATE")];
    let edges = vec![edge("1", "a", "b"), edge("2", "b", "a")];
    let tree = FlowTree::new(&nodes, &edges);
    let event = kiteflow::host::Event {
        app_id: String::new(),
        guild_id: String::new(),
        data: kiteflow::host::EventData::Initiate,
    };
    let err = kiteflow::host::handle_event(&tree, &event).unwrap_err();
    assert_eq!(err.code, "recursion_limit");
    assert_eq!(err.message, "Recursion limit reached");
}

#[test]
fn command_entry_with_options() {
    let nodes = vec![
        entry_command("cmd", "greet", "Says hello"),
        option_text("o1", "who", "Whom to greet", true),
        action_response("r1", "hello"),
        action_log("x1", "info", "not an option"),
    ];
    let edges = vec![
        edge("1", "o1", "cmd"),
        edge("2", "x1", "cmd"),
        edge("3", "cmd", "r1"),
    ];
    let tree = FlowTree::new(&nodes, &edges);
    // A structural child that is not an option node is filtered out.
    match &tree.nodes[tree.entries[0]] {
        FlowNode::EntryCommand { options, next, .. } => {
            assert_eq!(options.len(), 1);
            assert_eq!(next.len(), 1);
        },
        _ => panic!("entry is not a command"),
    }
    assert_eq!(
        dispatch(&tree, "DISCORD_INTERACTION_CREATE"),
        Ok(vec![
            Effect::OptionRecord {
                name: "who".to_string(),
                description: "Whom to greet".to_string(),
                required: true,
            },
            Effect::ResponseText { text: "hello".to_string() },
        ])
    );
    assert_eq!(dispatch(&tree, "OTHER"), Ok(vec![]));
}

#[test]
fn error_entry_reports_unconditionally() {
    let nodes = vec![entry_error("err")];
    let edges = vec![];
    let tree = FlowTree::new(&nodes, &edges);
    assert_eq!(dispatch(&tree, "ANYTHING"), Ok(vec![Effect::ErrorReport]));
}

#[test]
fn events_deduplicates_kinds() {
    let nodes = vec![
        entry_event("e1", "A"),
        entry_event("e2", "A"),
        entry_command("c1", "cmd", "d"),
        entry_error("err"),
    ];
    let edges = vec![];
    let tree = FlowTree::new(&nodes, &edges);
    let kinds = tree.events();
    assert_eq!(kinds, vec!["A".to_string(), "DISCORD_INTERACTION_CREATE".to_string()]);
}

#[test]
fn empty_graph_dispatches_nothing() {
    let tree = FlowTree::new(&vec![], &vec![]);
    assert_eq!(tree.entries.len(), 0);
    assert_eq!(dispatch(&tree, "GO"), Ok(vec![]));
}

#[test]
fn duplicate_ids_collapse_to_last() {
    // Duplicate ids collapse to the last node registered under the id.
    let nodes = vec![entry_event("x", "GO"), action_log("x", "info", "last wins")];
    let edges = vec![];
    let tree = FlowTree::new(&nodes, &edges);
    assert_eq!(tree.entries.len(), 1);
    // The action fires unconditionally when visited as the entry for "x".
    assert_eq!(dispatch(&tree, "ANY"), Ok(vec![log_effect("info", "last wins")]));
}

#[test]
fn set_next_replaces_successors() {
    let mut n = FlowNode::EntryEvent { event_type: "E".to_string(), next: vec![1, 2] };
    n.set_next(vec![7]);
    match n {
        FlowNode::EntryEvent { event_type, next } => {
            assert_eq!(event_type, "E");
            assert_eq!(next, vec![7]);
        },
        _ => panic!("kind changed"),
    }
    let mut leaf = FlowNode::CommandOptionText {
        name: "n".to_string(),
        description: "d".to_string(),
        required: false,
    };
    leaf.set_next(vec![3]);
    assert!(matches!(leaf, FlowNode::CommandOptionText { .. }));
}

#[test]
fn evalute_condition_modes() {
    let eq_item = FlowNode::ConditionItemCompare {
        mode: ConditionItemCompareMode::Equal,
        value: "a".to_string(),
        next: vec![],
    };
    assert_eq!(eq_item.evalute_condition(&"a".to_string()), Ok(true));
    assert_eq!(eq_item.evalute_condition(&"b".to_string()), Ok(false));
    let ne_item = FlowNode::ConditionItemCompare {
        mode: ConditionItemCompareMode::NotEqual,
        value: "a".to_string(),
        next: vec![],
    };
    assert_eq!(ne_item.evalute_condition(&"a".to_string()), Ok(false));
    assert_eq!(ne_item.evalute_condition(&"b".to_string()), Ok(true));
    let reserved = FlowNode::ConditionItemCompare {
        mode: ConditionItemCompareMode::LessThan,
        value: "a".to_string(),
        next: vec![],
    };
    assert_eq!(
        reserved.evalute_condition(&"a".to_string()),
        Err(DispatchError::UnimplementedMode)
    );
}

#[test]
fn node_kind_predicates() {
    let e = entry_event("e", "T");
    assert!(e.is_entry());
    assert!(!e.is_action());
    assert!(!e.is_condition());
    assert!(!e.is_option());
    assert_eq!(e.id(), "e");
    let a = action_log("a", "info", "m");
    assert!(a.is_action());
    assert!(!a.is_entry());
    let c = condition("c", "b", false);
    assert!(c.is_condition());
    let o = option_text("o", "n", "d", false);
    assert!(o.is_option());
    let item = item_compare("i", ConditionItemCompareMode::Equal, "v");
    assert!(!item.is_entry());
}

#[test]
fn flow_node_item_predicates() {
    let item = FlowNode::ConditionItemCompare {
        mode: ConditionItemCompareMode::Equal,
        value: "v".to_string(),
        next: vec![],
    };
    assert!(item.is_condition_item());
    assert!(!item.is_condition_else());
    let els = FlowNode::ConditionItemElse { next: vec![] };
    assert!(els.is_condition_else());
    assert!(!els.is_condition_item());
    let noop = FlowNode::default();
    assert!(!noop.is_condition_item());
    assert!(!noop.is_condition_else());
}

fn chain_graph(actions: usize) -> (Vec<Node>, Vec<Edge>) {
    // e1 -> a1 -> a2 -> ... -> a_actions
    let mut nodes = vec![entry_event("e1", "GO")];
    let mut edges = Vec::new();
    let mut prev = "e1".to_string();
    for i in 1..=actions {
        let id = format!("a{}", i);
        nodes.push(action_log(&id, "info", &id));
        edges.push(edge(&format!("edge{}", i), &prev, &id));
        prev = id;
    }
    (nodes, edges)
}

#[test]
fn chain_at_depth_ceiling_succeeds() {
    // The entry is visited at depth 0 and the hundredth action at depth 100,
    // the last depth the ceiling admits.
    let (nodes, edges) = chain_graph(100);
    let tree = FlowTree::new(&nodes, &edges);
    let effects = dispatch(&tree, "GO").unwrap();
    assert_eq!(effects.len(), 100);
}

#[test]
fn chain_past_depth_ceiling_aborts() {
    let (nodes, edges) = chain_graph(101);
    let tree = FlowTree::new(&nodes, &edges);
    assert_eq!(dispatch(&tree, "GO"), Err(DispatchError::DepthExceeded));
}

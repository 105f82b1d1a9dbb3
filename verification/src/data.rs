//! The declarative data model: the author-facing nodes and edges of a flow
//! graph, prior to resolution into the executable tree.

use vstd::prelude::*;

verus! {

/// A directed edge between two declarative nodes, referenced by id.
///
/// Whether the edge plays the sequential ("next") role or the structural
/// ("child") role is decided by the kind of the node resolving it, not by
/// the edge itself.
#[derive(Clone)]
pub struct Edge {
    pub id: String,
    pub source: String,
    pub target: String,
}

/// Comparison mode of a condition item. Only `Equal` and `NotEqual` are
/// implemented; the remaining modes are reserved and evaluating them fails
/// loudly rather than silently defaulting.
#[derive(Clone, Copy, PartialEq, Eq, Structural, Debug)]
pub enum ConditionItemCompareMode {
    Equal,
    NotEqual,
    GreaterThan,
    LessThan,
}

/// A declarative node as authored, tagged by kind. Every node carries a
/// string identifier; identifiers are expected to be unique within one graph,
/// and duplicates collapse to the last node registered under that id.
#[derive(Clone)]
pub enum Node {
    EntryCommand { id: String, data: NodeDataEntryCommand },
    EntryEvent { id: String, data: NodeDataEntryEvent },
    EntryError { id: String, data: NodeDataEntryError },
    OptionText { id: String, data: NodeDataOptionText },
    ActionLog { id: String, data: NodeDataActionLog },
    ActionResponseText { id: String, data: NodeDataActionResponseText },
    ConditionCompare { id: String, data: NodeDataConditionCompare },
    ConditionItemCompare { id: String, data: NodeDataConditionItemCompare },
    ConditionItemElse { id: String },
}

#[derive(Clone)]
pub struct NodeDataEntryCommand {
    pub name: String,
    pub description: String,
}

#[derive(Clone)]
pub struct NodeDataEntryEvent {
    pub event_type: String,
}

#[derive(Clone)]
pub struct NodeDataEntryError {}

#[derive(Clone)]
pub struct NodeDataOptionText {
    pub name: String,
    pub description: String,
    pub required: bool,
}

#[derive(Clone)]
pub struct NodeDataActionLog {
    pub log_level: String,
    pub log_message: String,
}

#[derive(Clone)]
pub struct NodeDataActionResponseText {
    pub text: String,
}

#[derive(Clone)]
pub struct NodeDataConditionCompare {
    pub condition_base_value: String,
    pub condition_allow_multiple: bool,
}

#[derive(Clone)]
pub struct NodeDataConditionItemCompare {
    pub condition_item_mode: ConditionItemCompareMode,
    pub condition_item_value: String,
}

impl Node {
    /// The identifier of a declarative node, whatever its kind.
    pub open spec fn spec_id(&self) -> Seq<char> {
        match self {
            Node::EntryCommand { id, .. } => id@,
            Node::EntryEvent { id, .. } => id@,
            Node::EntryError { id, .. } => id@,
            Node::OptionText { id, .. } => id@,
            Node::ActionLog { id, .. } => id@,
            Node::ActionResponseText { id, .. } => id@,
            Node::ConditionCompare { id, .. } => id@,
            Node::ConditionItemCompare { id, .. } => id@,
            Node::ConditionItemElse { id } => id@,
        }
    }

    /// An entry kind becomes a root of the executable tree.
    pub open spec fn spec_is_entry(&self) -> bool {
        self is EntryCommand || self is EntryEvent || self is EntryError
    }

    /// An action kind produces a side effect when visited.
    pub open spec fn spec_is_action(&self) -> bool {
        self is ActionLog || self is ActionResponseText
    }

    /// A condition kind branches on a comparison of its items.
    pub open spec fn spec_is_condition(&self) -> bool {
        self is ConditionCompare
    }

    /// An option kind is a structural child of a command entry.
    pub open spec fn spec_is_option(&self) -> bool {
        self is OptionText
    }

    pub fn id(&self) -> (r: &String)
        ensures
            r@ == self.spec_id(),
    {
        match self {
            Node::EntryCommand { id, .. } => id,
            Node::EntryEvent { id, .. } => id,
            Node::EntryError { id, .. } => id,
            Node::OptionText { id, .. } => id,
            Node::ActionLog { id, .. } => id,
            Node::ActionResponseText { id, .. } => id,
            Node::ConditionCompare { id, .. } => id,
            Node::ConditionItemCompare { id, .. } => id,
            Node::ConditionItemElse { id } => id,
        }
    }

    pub fn is_entry(&self) -> (r: bool)
        ensures
            r == self.spec_is_entry(),
    {
        matches!(self, Node::EntryCommand { .. } | Node::EntryEvent { .. } | Node::EntryError { .. })
    }

    pub fn is_action(&self) -> (r: bool)
        ensures
            r == self.spec_is_action(),
    {
        matches!(self, Node::ActionLog { .. } | Node::ActionResponseText { .. })
    }

    pub fn is_condition(&self) -> (r: bool)
        ensures
            r == self.spec_is_condition(),
    {
        matches!(self, Node::ConditionCompare { .. })
    }

    pub fn is_option(&self) -> (r: bool)
        ensures
            r == self.spec_is_option(),
    {
        matches!(self, Node::OptionText { .. })
    }
}

/// One flow graph as loaded at session start: a flat node list and a flat
/// edge list.
#[derive(Clone)]
pub struct FlowData {
    pub nodes: Vec<Node>,
    pub edges: Vec<Edge>,
}

} // verus!

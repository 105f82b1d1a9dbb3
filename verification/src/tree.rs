//! The executable tree: runtime nodes held in one arena, cross-referenced by
//! index so that shared and even cyclic structures are expressed without
//! shared mutable ownership.

use vstd::prelude::*;
use crate::data::ConditionItemCompareMode;

verus! {

/// A resolved runtime node. References to other runtime nodes are indices
/// into the arena of the owning [`FlowTree`]; one arena slot exists per
/// distinct declarative node id, so every reference to an id shares one
/// instance.
///
/// `NoOp` is the neutral placeholder registered for a node before its
/// children are resolved; it is what a re-entrant reference shares until the
/// construction pass fills the slot, and it does nothing when visited.
pub enum FlowNode {
    NoOp,
    EntryCommand {
        name: String,
        description: String,
        options: Vec<usize>,
        next: Vec<usize>,
    },
    CommandOptionText {
        name: String,
        description: String,
        required: bool,
    },
    EntryEvent {
        event_type: String,
        next: Vec<usize>,
    },
    EntryError {},
    ActionResponseText {
        text: String,
        next: Vec<usize>,
    },
    ActionLog {
        log_level: String,
        log_message: String,
        next: Vec<usize>,
    },
    ConditionCompare {
        items: Vec<usize>,
        base_value: String,
        allow_multiple: bool,
    },
    ConditionItemCompare {
        mode: ConditionItemCompareMode,
        value: String,
        next: Vec<usize>,
    },
    ConditionItemElse {
        next: Vec<usize>,
    },
}

impl FlowNode {
    /// Every arena index this node refers to, structural children first.
    pub open spec fn spec_refs(&self) -> Seq<usize> {
        match self {
            FlowNode::NoOp => Seq::empty(),
            FlowNode::EntryCommand { options, next, .. } => options@ + next@,
            FlowNode::CommandOptionText { .. } => Seq::empty(),
            FlowNode::EntryEvent { next, .. } => next@,
            FlowNode::EntryError { .. } => Seq::empty(),
            FlowNode::ActionResponseText { next, .. } => next@,
            FlowNode::ActionLog { next, .. } => next@,
            FlowNode::ConditionCompare { items, .. } => items@,
            FlowNode::ConditionItemCompare { next, .. } => next@,
            FlowNode::ConditionItemElse { next } => next@,
        }
    }

    /// All references of this node stay below the arena bound `n`.
    pub open spec fn wf_in(&self, n: int) -> bool {
        forall|j: int| 0 <= j < self.spec_refs().len() ==> (self.spec_refs()[j] as int) < n
    }

    pub open spec fn spec_is_condition_item(&self) -> bool {
        self is ConditionItemCompare
    }

    pub open spec fn spec_is_condition_else(&self) -> bool {
        self is ConditionItemElse
    }

    /// A comparison branch nested under a condition node.
    pub fn is_condition_item(&self) -> (r: bool)
        ensures
            r == self.spec_is_condition_item(),
    {
        match self {
            FlowNode::ConditionItemCompare { .. } => true,
            _ => false,
        }
    }

    /// The fallback branch nested under a condition node.
    pub fn is_condition_else(&self) -> (r: bool)
        ensures
            r == self.spec_is_condition_else(),
    {
        match self {
            FlowNode::ConditionItemElse { .. } => true,
            _ => false,
        }
    }
}

/// How `set_next` rewrites a node: for the kinds that carry a sequential
/// successor list the list is replaced and everything else is kept; the
/// remaining kinds are left untouched.
pub open spec fn next_replaced(pre: FlowNode, post: FlowNode, nn: Seq<usize>) -> bool {
    match pre {
        FlowNode::EntryCommand { name, description, options, next } => {
            &&& post matches FlowNode::EntryCommand {
                name: name2, description: description2, options: options2, next: next2 }
            &&& name2 == name
            &&& description2 == description
            &&& options2@ == options@
            &&& next2@ == nn
        },
        FlowNode::EntryEvent { event_type, next } => {
            &&& post matches FlowNode::EntryEvent { event_type: event_type2, next: next2 }
            &&& event_type2 == event_type
            &&& next2@ == nn
        },
        FlowNode::ActionResponseText { text, next } => {
            &&& post matches FlowNode::ActionResponseText { text: text2, next: next2 }
            &&& text2 == text
            &&& next2@ == nn
        },
        FlowNode::ActionLog { log_level, log_message, next } => {
            &&& post matches FlowNode::ActionLog {
                log_level: log_level2, log_message: log_message2, next: next2 }
            &&& log_level2 == log_level
            &&& log_message2 == log_message
            &&& next2@ == nn
        },
        _ => post == pre,
    }
}

impl FlowNode {
    /// Replaces the sequential successors of a node that has them; a node
    /// without a "next" list is left as it is.
    pub fn set_next(&mut self, new_next: Vec<usize>)
        ensures
            next_replaced(*old(self), *final(self), new_next@),
    {
        let replacement: Option<FlowNode> = match &*self {
            FlowNode::EntryCommand { name, description, options, .. } => {
                Some(FlowNode::EntryCommand {
                    name: name.clone(),
                    description: description.clone(),
                    options: copy_indices(options),
                    next: new_next,
                })
            },
            FlowNode::EntryEvent { event_type, .. } => {
                Some(FlowNode::EntryEvent { event_type: event_type.clone(), next: new_next })
            },
            FlowNode::ActionResponseText { text, .. } => {
                Some(FlowNode::ActionResponseText { text: text.clone(), next: new_next })
            },
            FlowNode::ActionLog { log_level, log_message, .. } => {
                Some(FlowNode::ActionLog {
                    log_level: log_level.clone(),
                    log_message: log_message.clone(),
                    next: new_next,
                })
            },
            _ => None,
        };
        if let Some(n) = replacement {
            *self = n;
        }
    }
}

impl Default for FlowNode {
    /// The neutral placeholder node.
    fn default() -> (r: Self)
        ensures
            r is NoOp,
    {
        FlowNode::NoOp
    }
}

/// An index list copied element by element.
fn copy_indices(v: &Vec<usize>) -> (r: Vec<usize>)
    ensures
        r@ == v@,
{
    let mut out: Vec<usize> = Vec::new();
    let mut i: usize = 0;
    while i < v.len()
        invariant
            i <= v.len(),
            out@ == v@.take(i as int),
        decreases v.len() - i,
    {
        out.push(v[i]);
        proof {
            assert(out@ =~= v@.take(i + 1));
        }
        i = i + 1;
    }
    proof {
        assert(v@.take(v@.len() as int) =~= v@);
    }
    out
}

/// The executable tree built from one flow graph: the arena of resolved
/// runtime nodes and the indices of the entry roots, in declaration order.
///
/// The ghost `slot_of` records the arena slot allocated to each resolved
/// declarative node id in the construction pass; the construction contract
/// states every cross reference through it.
pub struct FlowTree {
    pub nodes: Vec<FlowNode>,
    pub entries: Vec<usize>,
    pub slot_of: Ghost<Map<Seq<char>, int>>,
}

impl FlowTree {
    /// Every entry root and every cross reference points into the arena.
    pub open spec fn wf(&self) -> bool {
        &&& forall|i: int| 0 <= i < self.entries@.len()
            ==> (self.entries@[i] as int) < self.nodes@.len()
        &&& forall|k: int| 0 <= k < self.nodes@.len()
            ==> (#[trigger] self.nodes@[k]).wf_in(self.nodes@.len() as int)
    }
}

} // verus!

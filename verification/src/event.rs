//! The event dispatcher: walks the executable tree once per incoming event,
//! gated by entry kind, with a bounded recursion depth, and produces the
//! list of side effects the walk emits instead of performing them.

use vstd::prelude::*;
use std::collections::HashMap;
use crate::data::ConditionItemCompareMode;
use crate::tree::{FlowNode, FlowTree};

verus! {

/// The recursion ceiling: a visit that would pass this depth aborts the
/// dispatch with a structural-recursion-limit failure.
pub const DEPTH_LIMIT: usize = 100;

/// The event kind that fires command entries.
pub open spec fn spec_interaction_kind() -> Seq<char> {
    "DISCORD_INTERACTION_CREATE"@
}

/// The event kind that fires command entries, as a value.
pub fn interaction_kind() -> (r: String)
    ensures
        r@ == spec_interaction_kind(),
{
    String::from_str("DISCORD_INTERACTION_CREATE")
}

/// One side effect emitted by a dispatch, to be performed by the caller:
/// a descriptive record of a command option, an error-entry report, a log
/// record, or a text response.
#[derive(Debug, Clone, PartialEq)]
pub enum Effect {
    OptionRecord { name: String, description: String, required: bool },
    ErrorReport,
    Log { level: String, message: String },
    ResponseText { text: String },
}

/// Why a dispatch failed: the traversal passed the recursion ceiling, or a
/// condition item carried a comparison mode that is reserved but not
/// implemented (which must fail loudly, never silently fall through).
#[derive(Debug, Clone, Copy, PartialEq, Eq, Structural)]
pub enum DispatchError {
    DepthExceeded,
    UnimplementedMode,
}

/// The ephemeral state of one dispatch: the recursion depth and the
/// variable bindings. Created fresh per event and discarded afterwards.
pub struct EventContext {
    pub depth: usize,
    pub variables: HashMap<String, String>,
}

impl EventContext {
    pub fn new() -> (c: EventContext)
        ensures
            c.depth == 0,
            c.variables@ == Map::<String, String>::empty(),
    {
        EventContext { depth: 0, variables: HashMap::new() }
    }
}

/// Whether a condition item matches the base value: `Equal` and `NotEqual`
/// compare the item value against the base value; the reserved modes fail.
/// A node that is not a comparison item counts as matching.
pub open spec fn spec_condition(item: FlowNode, base: Seq<char>) -> Result<bool, DispatchError> {
    match item {
        FlowNode::ConditionItemCompare { mode, value, .. } => match mode {
            ConditionItemCompareMode::Equal => Ok(value@ == base),
            ConditionItemCompareMode::NotEqual => Ok(value@ != base),
            _ => Err(DispatchError::UnimplementedMode),
        },
        _ => Ok(true),
    }
}

/// What visiting the node in slot `k` at recursion depth `depth` emits, and
/// whether it aborts: the specification the executable dispatcher is held
/// to. Entry kinds fire only when gated by the event kind; actions emit
/// their effect and then walk their successors; a condition node delegates
/// to the item scan. The pair carries the effects emitted up to an abort.
pub open spec fn visit_node(
    arena: Seq<FlowNode>,
    k: int,
    ek: Seq<char>,
    depth: nat,
) -> (Seq<Effect>, Option<DispatchError>)
    decreases DEPTH_LIMIT + 2 - depth, 0nat, 0nat,
{
    if depth > DEPTH_LIMIT {
        (Seq::empty(), Some(DispatchError::DepthExceeded))
    } else {
        let d = (depth + 1) as nat;
        match arena[k] {
            FlowNode::NoOp => (Seq::empty(), None),
            FlowNode::EntryCommand { name, description, options, next } => {
                if ek == spec_interaction_kind() {
                    let (e1, r1) = visit_list(arena, options@, ek, d);
                    if r1 is Some {
                        (e1, r1)
                    } else {
                        let (e2, r2) = visit_list(arena, next@, ek, d);
                        (e1 + e2, r2)
                    }
                } else {
                    (Seq::empty(), None)
                }
            },
            FlowNode::CommandOptionText { name, description, required } => {
                (seq![Effect::OptionRecord { name, description, required }], None)
            },
            FlowNode::EntryEvent { event_type, next } => {
                if event_type@ == ek {
                    visit_list(arena, next@, ek, d)
                } else {
                    (Seq::empty(), None)
                }
            },
            FlowNode::EntryError { } => (seq![Effect::ErrorReport], None),
            FlowNode::ActionResponseText { text, next } => {
                let (e, r) = visit_list(arena, next@, ek, d);
                (seq![Effect::ResponseText { text }] + e, r)
            },
            FlowNode::ActionLog { log_level, log_message, next } => {
                let (e, r) = visit_list(arena, next@, ek, d);
                (seq![Effect::Log { level: log_level, message: log_message }] + e, r)
            },
            FlowNode::ConditionCompare { items, base_value, allow_multiple } => {
                visit_items(arena, items@, base_value@, allow_multiple, ek, d, false, None)
            },
            FlowNode::ConditionItemCompare { mode, value, next } => {
                visit_list(arena, next@, ek, d)
            },
            FlowNode::ConditionItemElse { next } => visit_list(arena, next@, ek, d),
        }
    }
}

/// What visiting the slots `ks` in order emits: the effects concatenate,
/// and the first abort stops the walk with the effects emitted so far.
pub open spec fn visit_list(
    arena: Seq<FlowNode>,
    ks: Seq<usize>,
    ek: Seq<char>,
    depth: nat,
) -> (Seq<Effect>, Option<DispatchError>)
    decreases DEPTH_LIMIT + 2 - depth, 1nat, ks.len(),
{
    if ks.len() == 0 {
        (Seq::empty(), None)
    } else {
        let (e1, r1) = visit_node(arena, ks[0] as int, ek, depth);
        if r1 is Some {
            (e1, r1)
        } else {
            let (e2, r2) = visit_list(arena, ks.skip(1), ek, depth);
            (e1 + e2, r2)
        }
    }
}

/// The condition scan: comparison items are evaluated in order against the
/// base value; a match executes the item's subtree, and with `allow_multiple`
/// unset the scan stops at the first match. A fallback item is remembered
/// (the last one wins) but only executed, after the scan, if no comparison
/// item matched.
pub open spec fn visit_items(
    arena: Seq<FlowNode>,
    items: Seq<usize>,
    base: Seq<char>,
    allow_multiple: bool,
    ek: Seq<char>,
    depth: nat,
    handled: bool,
    else_k: Option<usize>,
) -> (Seq<Effect>, Option<DispatchError>)
    decreases DEPTH_LIMIT + 2 - depth, 1nat, items.len(),
{
    if items.len() == 0 {
        if !handled {
            match else_k {
                Some(e) => visit_node(arena, e as int, ek, depth),
                None => (Seq::empty(), None),
            }
        } else {
            (Seq::empty(), None)
        }
    } else {
        let it = arena[items[0] as int];
        if it.spec_is_condition_item() {
            match spec_condition(it, base) {
                Err(err) => (Seq::empty(), Some(err)),
                Ok(true) => {
                    let (e1, r1) = visit_node(arena, items[0] as int, ek, depth);
                    if r1 is Some {
                        (e1, r1)
                    } else if !allow_multiple {
                        (e1, None)
                    } else {
                        let (e2, r2) = visit_items(
                            arena, items.skip(1), base, allow_multiple, ek, depth, true, else_k);
                        (e1 + e2, r2)
                    }
                },
                Ok(false) => visit_items(
                    arena, items.skip(1), base, allow_multiple, ek, depth, handled, else_k),
            }
        } else if it.spec_is_condition_else() {
            visit_items(
                arena, items.skip(1), base, allow_multiple, ek, depth, handled, Some(items[0]))
        } else {
            visit_items(arena, items.skip(1), base, allow_multiple, ek, depth, handled, else_k)
        }
    }
}

impl FlowNode {
    /// Evaluates this node as a condition item against the base value;
    /// a reserved comparison mode fails loudly.
    pub fn evalute_condition(&self, base_value: &String) -> (r: Result<bool, DispatchError>)
        ensures
            r == spec_condition(*self, base_value@),
    {
        match self {
            FlowNode::ConditionItemCompare { mode, value, .. } => match mode {
                ConditionItemCompareMode::Equal => Ok(*value == *base_value),
                ConditionItemCompareMode::NotEqual => {
                    let e = *value == *base_value;
                    Ok(!e)
                },
                _ => Err(DispatchError::UnimplementedMode),
            },
            _ => Ok(true),
        }
    }
}

impl FlowTree {
    /// Visits the slots `ks` in order at the current depth, appending the
    /// emitted effects to `out` and stopping at the first abort.
    fn visit_list_exec(
        &self,
        ks: &Vec<usize>,
        event_kind: &String,
        ctx: &mut EventContext,
        out: &mut Vec<Effect>,
    ) -> (r: Result<(), DispatchError>)
        requires
            self.wf(),
            forall|j: int| 0 <= j < ks@.len() ==> ((#[trigger] ks@[j]) as int) < self.nodes@.len(),
        ensures
            final(ctx).depth == old(ctx).depth,
            final(ctx).variables == old(ctx).variables,
            ({
                let (effs, err) = visit_list(
                    self.nodes@, ks@, event_kind@, old(ctx).depth as nat);
                &&& final(out)@ == old(out)@ + effs
                &&& match err {
                    Option::None => r is Ok,
                    Option::Some(e) => r matches Err(e2) && e2 == e,
                }
            }),
        decreases DEPTH_LIMIT + 2 - ctx.depth, 1int,
    {
        let ghost d0 = ctx.depth as nat;
        let ghost arena = self.nodes@;
        let ghost ek = event_kind@;
        let mut j: usize = 0;
        let ghost mut acc: Seq<Effect> = Seq::empty();
        proof {
            assert(ks@.skip(0) =~= ks@);
            assert(old(out)@ + acc =~= old(out)@);
        }
        while j < ks.len()
            invariant
                j <= ks@.len(),
                self.wf(),
                forall|j2: int| 0 <= j2 < ks@.len()
                    ==> ((#[trigger] ks@[j2]) as int) < self.nodes@.len(),
                ctx.depth == old(ctx).depth,
                ctx.depth as nat == d0,
                ctx.variables == old(ctx).variables,
                arena == self.nodes@,
                ek == event_kind@,
                out@ == old(out)@ + acc,
                ({
                    let (e_full, r_full) = visit_list(arena, ks@, ek, d0);
                    let (e_rest, r_rest) = visit_list(arena, ks@.skip(j as int), ek, d0);
                    e_full == acc + e_rest && r_full == r_rest
                }),
            decreases ks@.len() - j,
        {
            proof {
                assert(ks@.skip(j as int)[0] == ks@[j as int]);
                assert(ks@.skip(j as int).skip(1) =~= ks@.skip(j + 1));
            }
            let r1 = self.visit(ks[j], event_kind, ctx, out);
            proof {
                let (e1, rr1) = visit_node(arena, ks@[j as int] as int, ek, d0);
                assert(out@ =~= old(out)@ + (acc + e1));
            }
            match r1 {
                Result::Err(e) => {
                    proof {
                        let (e_full, r_full) = visit_list(arena, ks@, ek, d0);
                        let (e1, rr1) = visit_node(arena, ks@[j as int] as int, ek, d0);
                        assert(r_full == rr1);
                        assert(e_full == acc + e1);
                    }
                    return Result::Err(e);
                },
                Result::Ok(()) => {
                    proof {
                        let (e1, rr1) = visit_node(arena, ks@[j as int] as int, ek, d0);
                        acc = acc + e1;
                        assert(visit_list(arena, ks@, ek, d0).0
                            == acc + visit_list(arena, ks@.skip(j + 1), ek, d0).0) by {
                            assert(acc + visit_list(arena, ks@.skip(j + 1), ek, d0).0
                                =~= visit_list(arena, ks@, ek, d0).0);
                        }
                    }
                },
            }
            j = j + 1;
        }
        proof {
            assert(ks@.skip(ks@.len() as int) =~= Seq::<usize>::empty());
            assert(out@ =~= old(out)@ + visit_list(arena, ks@, ek, d0).0);
        }
        Result::Ok(())
    }

    /// The condition scan at the current depth: evaluates comparison items
    /// in order, executes matching subtrees (all of them only when
    /// `allow_multiple` is set), remembers the last fallback item, and
    /// executes it after the scan only when nothing matched.
    fn visit_items_exec(
        &self,
        items: &Vec<usize>,
        base_value: &String,
        allow_multiple: bool,
        event_kind: &String,
        ctx: &mut EventContext,
        out: &mut Vec<Effect>,
    ) -> (r: Result<(), DispatchError>)
        requires
            self.wf(),
            forall|j: int| 0 <= j < items@.len()
                ==> ((#[trigger] items@[j]) as int) < self.nodes@.len(),
        ensures
            final(ctx).depth == old(ctx).depth,
            final(ctx).variables == old(ctx).variables,
            ({
                let (effs, err) = visit_items(
                    self.nodes@, items@, base_value@, allow_multiple, event_kind@,
                    old(ctx).depth as nat, false, Option::None);
                &&& final(out)@ == old(out)@ + effs
                &&& match err {
                    Option::None => r is Ok,
                    Option::Some(e) => r matches Err(e2) && e2 == e,
                }
            }),
        decreases DEPTH_LIMIT + 2 - ctx.depth, 1int,
    {
        let ghost d0 = ctx.depth as nat;
        let ghost arena = self.nodes@;
        let ghost ek = event_kind@;
        let ghost base = base_value@;
        let mut j: usize = 0;
        let mut handled: bool = false;
        let mut else_idx: Option<usize> = Option::None;
        let ghost mut acc: Seq<Effect> = Seq::empty();
        proof {
            assert(items@.skip(0) =~= items@);
            assert(old(out)@ + acc =~= old(out)@);
        }
        while j < items.len()
            invariant
                j <= items@.len(),
                self.wf(),
                forall|j2: int| 0 <= j2 < items@.len()
                    ==> ((#[trigger] items@[j2]) as int) < self.nodes@.len(),
                ctx.depth == old(ctx).depth,
                ctx.depth as nat == d0,
                ctx.variables == old(ctx).variables,
                arena == self.nodes@,
                ek == event_kind@,
                base == base_value@,
                out@ == old(out)@ + acc,
                else_idx matches Option::Some(e) ==> (e as int) < self.nodes@.len(),
                ({
                    let (e_full, r_full) = visit_items(
                        arena, items@, base, allow_multiple, ek, d0, false, Option::None);
                    let (e_rest, r_rest) = visit_items(
                        arena, items@.skip(j as int), base, allow_multiple, ek, d0,
                        handled, else_idx);
                    e_full == acc + e_rest && r_full == r_rest
                }),
            decreases items@.len() - j,
        {
            proof {
                assert(items@.skip(j as int)[0] == items@[j as int]);
                assert(items@.skip(j as int).skip(1) =~= items@.skip(j + 1));
            }
            let it_idx = items[j];
            let is_item = self.nodes[it_idx].is_condition_item();
            if is_item {
                let ev = self.nodes[it_idx].evalute_condition(base_value);
                match ev {
                    Result::Err(e) => {
                        proof {
                            let (e_full, r_full) = visit_items(
                                arena, items@, base, allow_multiple, ek, d0,
                                false, Option::None);
                            assert(e_full == acc + Seq::<Effect>::empty());
                            assert(e_full =~= acc);
                        }
                        return Result::Err(e);
                    },
                    Result::Ok(true) => {
                        let r1 = self.visit(it_idx, event_kind, ctx, out);
                        proof {
                            let (e1, rr1) = visit_node(arena, it_idx as int, ek, d0);
                            assert(out@ =~= old(out)@ + (acc + e1));
                        }
                        match r1 {
                            Result::Err(e) => {
                                proof {
                                    let (e1, rr1) = visit_node(arena, it_idx as int, ek, d0);
                                    assert(visit_items(
                                        arena, items@, base, allow_multiple, ek, d0,
                                        false, Option::None).0 == acc + e1);
                                }
                                return Result::Err(e);
                            },
                            Result::Ok(()) => {
                                proof {
                                    let (e1, rr1) = visit_node(arena, it_idx as int, ek, d0);
                                    acc = acc + e1;
                                }
                                if !allow_multiple {
                                    proof {
                                        assert(visit_items(
                                            arena, items@, base, allow_multiple, ek, d0,
                                            false, Option::None).0 =~= acc);
                                    }
                                    return Result::Ok(());
                                }
                                handled = true;
                                proof {
                                    assert(visit_items(arena, items@, base, allow_multiple,
                                        ek, d0, false, Option::None).0
                                        == acc + visit_items(arena, items@.skip(j + 1), base,
                                            allow_multiple, ek, d0, handled, else_idx).0) by {
                                        assert(acc + visit_items(arena, items@.skip(j + 1),
                                            base, allow_multiple, ek, d0, handled, else_idx).0
                                            =~= visit_items(arena, items@, base, allow_multiple,
                                                ek, d0, false, Option::None).0);
                                    }
                                }
                            },
                        }
                    },
                    Result::Ok(false) => {},
                }
            } else {
                let is_else = self.nodes[it_idx].is_condition_else();
                if is_else {
                    else_idx = Option::Some(it_idx);
                }
            }
            j = j + 1;
        }
        proof {
            assert(items@.skip(items@.len() as int) =~= Seq::<usize>::empty());
        }
        if !handled {
            match else_idx {
                Option::Some(e) => {
                    let r = self.visit(e, event_kind, ctx, out);
                    proof {
                        let (e1, rr1) = visit_node(arena, e as int, ek, d0);
                        assert(out@ =~= old(out)@ + (acc + e1));
                    }
                    return r;
                },
                Option::None => {
                    proof {
                        assert(out@ =~= old(out)@ + visit_items(
                            arena, items@, base, allow_multiple, ek, d0,
                            false, Option::None).0);
                    }
                    return Result::Ok(());
                },
            }
        }
        proof {
            assert(out@ =~= old(out)@ + visit_items(
                arena, items@, base, allow_multiple, ek, d0, false, Option::None).0);
        }
        Result::Ok(())
    }

    /// Visits one node: bumps the depth (aborting past the ceiling),
    /// dispatches on the node kind, and restores the depth on the way out,
    /// appending every emitted effect to `out`.
    fn visit(
        &self,
        k: usize,
        event_kind: &String,
        ctx: &mut EventContext,
        out: &mut Vec<Effect>,
    ) -> (r: Result<(), DispatchError>)
        requires
            self.wf(),
            (k as int) < self.nodes@.len(),
        ensures
            final(ctx).depth == old(ctx).depth,
            final(ctx).variables == old(ctx).variables,
            ({
                let (effs, err) = visit_node(
                    self.nodes@, k as int, event_kind@, old(ctx).depth as nat);
                &&& final(out)@ == old(out)@ + effs
                &&& match err {
                    Option::None => r is Ok,
                    Option::Some(e) => r matches Err(e2) && e2 == e,
                }
            }),
        decreases DEPTH_LIMIT + 2 - ctx.depth, 0int,
    {
        let ghost arena = self.nodes@;
        let ghost ek = event_kind@;
        let ghost d_entry = ctx.depth as nat;
        if ctx.depth > DEPTH_LIMIT {
            proof {
                assert(out@ =~= old(out)@ + Seq::<Effect>::empty());
            }
            return Result::Err(DispatchError::DepthExceeded);
        }
        ctx.depth = ctx.depth + 1;
        let node = &self.nodes[k];
        proof {
            assert(arena[k as int].wf_in(arena.len() as int));
        }
        let res: Result<(), DispatchError> = match node {
            FlowNode::NoOp => {
                proof {
                    assert(out@ =~= old(out)@ + Seq::<Effect>::empty());
                }
                Result::Ok(())
            },
            FlowNode::EntryCommand { name, description, options, next } => {
                let ik = interaction_kind();
                if *event_kind == ik {
                    proof {
                        assert forall|j: int| 0 <= j < options@.len()
                            implies ((#[trigger] options@[j]) as int) < arena.len() by {
                            assert(arena[k as int].spec_refs()[j] == options@[j]);
                        }
                        assert forall|j: int| 0 <= j < next@.len()
                            implies ((#[trigger] next@[j]) as int) < arena.len() by {
                            assert(arena[k as int].spec_refs()[options@.len() + j]
                                == next@[j]);
                        }
                    }
                    let r1 = self.visit_list_exec(options, event_kind, ctx, out);
                    match r1 {
                        Result::Err(e) => Result::Err(e),
                        Result::Ok(()) => {
                            let r2 = self.visit_list_exec(next, event_kind, ctx, out);
                            proof {
                                let (e1, rr1) = visit_list(arena, options@, ek, d_entry + 1);
                                let (e2, rr2) = visit_list(arena, next@, ek, d_entry + 1);
                                assert(out@ =~= old(out)@ + (e1 + e2));
                            }
                            r2
                        },
                    }
                } else {
                    proof {
                        assert(out@ =~= old(out)@ + Seq::<Effect>::empty());
                    }
                    Result::Ok(())
                }
            },
            FlowNode::CommandOptionText { name, description, required } => {
                out.push(Effect::OptionRecord {
                    name: name.clone(),
                    description: description.clone(),
                    required: *required,
                });
                proof {
                    assert(out@ =~= old(out)@ + seq![Effect::OptionRecord {
                        name: *name, description: *description, required: *required }]);
                }
                Result::Ok(())
            },
            FlowNode::EntryEvent { event_type, next } => {
                if *event_type == *event_kind {
                    proof {
                        assert forall|j: int| 0 <= j < next@.len()
                            implies ((#[trigger] next@[j]) as int) < arena.len() by {
                            assert(arena[k as int].spec_refs()[j] == next@[j]);
                        }
                    }
                    self.visit_list_exec(next, event_kind, ctx, out)
                } else {
                    proof {
                        assert(out@ =~= old(out)@ + Seq::<Effect>::empty());
                    }
                    Result::Ok(())
                }
            },
            FlowNode::EntryError { } => {
                out.push(Effect::ErrorReport);
                proof {
                    assert(out@ =~= old(out)@ + seq![Effect::ErrorReport]);
                }
                Result::Ok(())
            },
            FlowNode::ActionResponseText { text, next } => {
                out.push(Effect::ResponseText { text: text.clone() });
                proof {
                    assert forall|j: int| 0 <= j < next@.len()
                        implies ((#[trigger] next@[j]) as int) < arena.len() by {
                        assert(arena[k as int].spec_refs()[j] == next@[j]);
                    }
                }
                let r1 = self.visit_list_exec(next, event_kind, ctx, out);
                proof {
                    let (e1, rr1) = visit_list(arena, next@, ek, d_entry + 1);
                    assert(out@ =~= old(out)@ + (seq![Effect::ResponseText { text: *text }]
                        + e1));
                }
                r1
            },
            FlowNode::ActionLog { log_level, log_message, next } => {
                out.push(Effect::Log {
                    level: log_level.clone(),
                    message: log_message.clone(),
                });
                proof {
                    assert forall|j: int| 0 <= j < next@.len()
                        implies ((#[trigger] next@[j]) as int) < arena.len() by {
                        assert(arena[k as int].spec_refs()[j] == next@[j]);
                    }
                }
                let r1 = self.visit_list_exec(next, event_kind, ctx, out);
                proof {
                    let (e1, rr1) = visit_list(arena, next@, ek, d_entry + 1);
                    assert(out@ =~= old(out)@ + (seq![Effect::Log {
                        level: *log_level, message: *log_message }] + e1));
                }
                r1
            },
            FlowNode::ConditionCompare { items, base_value, allow_multiple } => {
                proof {
                    assert forall|j: int| 0 <= j < items@.len()
                        implies ((#[trigger] items@[j]) as int) < arena.len() by {
                        assert(arena[k as int].spec_refs()[j] == items@[j]);
                    }
                }
                self.visit_items_exec(
                    items, base_value, *allow_multiple, event_kind, ctx, out)
            },
            FlowNode::ConditionItemCompare { mode, value, next } => {
                proof {
                    assert forall|j: int| 0 <= j < next@.len()
                        implies ((#[trigger] next@[j]) as int) < arena.len() by {
                        assert(arena[k as int].spec_refs()[j] == next@[j]);
                    }
                }
                self.visit_list_exec(next, event_kind, ctx, out)
            },
            FlowNode::ConditionItemElse { next } => {
                proof {
                    assert forall|j: int| 0 <= j < next@.len()
                        implies ((#[trigger] next@[j]) as int) < arena.len() by {
                        assert(arena[k as int].spec_refs()[j] == next@[j]);
                    }
                }
                self.visit_list_exec(next, event_kind, ctx, out)
            },
        };
        ctx.depth = ctx.depth - 1;
        res
    }

    /// Dispatches one event against the tree: every entry root is visited
    /// in order, and the effects the walk emits are returned, unless the
    /// walk aborts.
    pub fn handle_event(
        &self,
        ctx: &mut EventContext,
        event_kind: &String,
    ) -> (r: Result<Vec<Effect>, DispatchError>)
        requires
            self.wf(),
        ensures
            final(ctx).depth == old(ctx).depth,
            final(ctx).variables == old(ctx).variables,
            ({
                let (effs, err) = visit_list(
                    self.nodes@, self.entries@, event_kind@, old(ctx).depth as nat);
                match err {
                    Option::None => r matches Ok(v) && v@ == effs,
                    Option::Some(e) => r matches Err(e2) && e2 == e,
                }
            }),
    {
        let mut out: Vec<Effect> = Vec::new();
        let r = self.visit_list_exec(&self.entries, event_kind, ctx, &mut out);
        match r {
            Result::Ok(()) => Result::Ok(out),
            Result::Err(e) => Result::Err(e),
        }
    }
}

/// Whether some string in `v` has the view of `s`.
fn contains_str(v: &Vec<String>, s: &String) -> (r: bool)
    ensures
        r == exists|a: int| 0 <= a < v@.len() && (#[trigger] v@[a])@ == s@,
{
    let mut a: usize = 0;
    while a < v.len()
        invariant
            a <= v@.len(),
            forall|a2: int| 0 <= a2 < a ==> (#[trigger] v@[a2])@ != s@,
        decreases v@.len() - a,
    {
        if v[a] == *s {
            return true;
        }
        a = a + 1;
    }
    false
}

impl FlowTree {
    /// The event kind the `i`-th entry root listens to, if it is gated by
    /// one: an event entry listens to its event type, a command entry to
    /// the interaction kind, and an error entry to nothing.
    pub open spec fn spec_entry_kind(&self, i: int) -> Option<Seq<char>> {
        match self.nodes@[self.entries@[i] as int] {
            FlowNode::EntryEvent { event_type, .. } => Some(event_type@),
            FlowNode::EntryCommand { .. } => Some(spec_interaction_kind()),
            _ => None,
        }
    }

    /// The set of event kinds the tree listens to.
    pub open spec fn spec_event_kinds(&self) -> Set<Seq<char>> {
        Set::new(|s: Seq<char>| exists|i: int|
            0 <= i < self.entries@.len() && self.spec_entry_kind(i) == Some(s))
    }

    /// The event kinds the tree listens to, each exactly once.
    pub fn events(&self) -> (r: Vec<String>)
        requires
            self.wf(),
        ensures
            forall|a: int, b: int| 0 <= a < b < r@.len()
                ==> (#[trigger] r@[a])@ != (#[trigger] r@[b])@,
            forall|a: int| 0 <= a < r@.len()
                ==> self.spec_event_kinds().contains((#[trigger] r@[a])@),
            forall|s: Seq<char>| self.spec_event_kinds().contains(s)
                ==> exists|a: int| 0 <= a < r@.len() && (#[trigger] r@[a])@ == s,
    {
        let mut out: Vec<String> = Vec::new();
        let mut i: usize = 0;
        while i < self.entries.len()
            invariant
                i <= self.entries@.len(),
                self.wf(),
                forall|a: int, b: int| 0 <= a < b < out@.len()
                    ==> (#[trigger] out@[a])@ != (#[trigger] out@[b])@,
                forall|a: int| 0 <= a < out@.len() ==> exists|i2: int|
                    0 <= i2 < i && self.spec_entry_kind(i2) == Some((#[trigger] out@[a])@),
                forall|i2: int| 0 <= i2 < i && (#[trigger] self.spec_entry_kind(i2)) is Some
                    ==> exists|a: int| 0 <= a < out@.len()
                        && (#[trigger] out@[a])@ == self.spec_entry_kind(i2).unwrap(),
            decreases self.entries@.len() - i,
        {
            let e = self.entries[i];
            let kind_opt: Option<String> = match &self.nodes[e] {
                FlowNode::EntryEvent { event_type, .. } => Option::Some(event_type.clone()),
                FlowNode::EntryCommand { .. } => Option::Some(interaction_kind()),
                _ => Option::None,
            };
            proof {
                assert(match kind_opt {
                    Option::Some(s) => self.spec_entry_kind(i as int) == Some(s@),
                    Option::None => self.spec_entry_kind(i as int) is None,
                });
            }
            match kind_opt {
                Option::Some(s) => {
                    let ghost out_pre = out@;
                    let present = contains_str(&out, &s);
                    if !present {
                        out.push(s);
                    }
                    proof {
                        if !present {
                            assert(out@ == out_pre.push(s));
                            assert(out@[out_pre.len() as int]@ == s@);
                            assert forall|a: int| 0 <= a < out@.len() implies exists|i2: int|
                                0 <= i2 < i + 1
                                && self.spec_entry_kind(i2) == Some((#[trigger] out@[a])@) by {
                                if a < out_pre.len() {
                                    assert(out@[a] == out_pre[a]);
                                } else {
                                    assert(self.spec_entry_kind(i as int)
                                        == Some(out@[a]@));
                                }
                            }
                        }
                        assert forall|i2: int|
                            0 <= i2 < i + 1 && (#[trigger] self.spec_entry_kind(i2)) is Some
                            implies exists|a: int| 0 <= a < out@.len()
                                && (#[trigger] out@[a])@ == self.spec_entry_kind(i2).unwrap()
                            by {
                            if i2 == i as int {
                                if present {
                                    let a = choose|a: int| 0 <= a < out_pre.len()
                                        && (#[trigger] out_pre[a])@ == s@;
                                    assert(out@[a]@ == s@);
                                } else {
                                    assert(out@[out_pre.len() as int]@ == s@);
                                }
                            } else {
                                let a = choose|a: int| 0 <= a < out_pre.len()
                                    && (#[trigger] out_pre[a])@
                                        == self.spec_entry_kind(i2).unwrap();
                                assert(out@[a]@ == self.spec_entry_kind(i2).unwrap());
                            }
                        }
                    }
                },
                Option::None => {},
            }
            i = i + 1;
        }
        out
    }
}

} // verus!

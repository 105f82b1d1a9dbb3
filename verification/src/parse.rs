//! The tree builder: resolves the declarative graph into the arena-backed
//! executable tree through a memoized recursive pass.
//!
//! Memoization is by node id: the slot for an id is registered before the
//! node's children are resolved, so a re-entrant (cyclic) reference shares
//! the placeholder slot instead of recursing forever, and every reference to
//! one id resolves to one shared slot.

use vstd::prelude::*;
use crate::data::{Edge, Node};
use crate::index::{
    edge_sources, edge_targets, lemma_registry_lookup, lemma_registry_lookup_hit, lookup,
    registry_lookup, sources_of, targets_of, views_of,
};
use crate::tree::{FlowNode, FlowTree};

verus! {

/// Which candidate nodes a parent accepts as resolved references: any
/// registered node for most sequential successors, only option nodes as
/// command children, only condition items as condition children. The
/// successors of a condition item exclude condition nodes: the edge that
/// attaches an item to its condition is read structurally by the condition,
/// and following it sequentially as well would re-enter the parent from
/// every executed branch.
#[derive(Clone, Copy, PartialEq, Eq, Structural)]
pub enum ChildFilter {
    AnyNode,
    NonConditionNode,
    OptionNode,
    ConditionItemNode,
}

/// Whether the candidate id `id` survives resolution under `f`: it must hit
/// the registry (dangling ids are dropped) and its node must be of the kind
/// the parent expects.
pub open spec fn filter_hit(nodes: Seq<Node>, id: Seq<char>, f: ChildFilter) -> bool {
    match registry_lookup(nodes, id) {
        Some(d) => match f {
            ChildFilter::AnyNode => true,
            ChildFilter::NonConditionNode => !(nodes[d] is ConditionCompare),
            ChildFilter::OptionNode => nodes[d].spec_is_option(),
            ChildFilter::ConditionItemNode =>
                nodes[d] is ConditionItemCompare || nodes[d] is ConditionItemElse,
        },
        None => false,
    }
}

/// The arena slots contributed by the candidate ids `ids`, in order: each id
/// that survives `f` contributes the shared slot `m[id]`; the rest are
/// silently dropped.
pub open spec fn resolved_slots(
    nodes: Seq<Node>,
    m: Map<Seq<char>, int>,
    ids: Seq<Seq<char>>,
    f: ChildFilter,
) -> Seq<int>
    decreases ids.len(),
{
    if ids.len() == 0 {
        Seq::empty()
    } else {
        let rest = resolved_slots(nodes, m, ids.drop_last(), f);
        if filter_hit(nodes, ids.last(), f) {
            rest.push(m[ids.last()])
        } else {
            rest
        }
    }
}

/// Every candidate id that survives `f` has been resolved into `m`.
pub open spec fn slots_resolved(
    nodes: Seq<Node>,
    m: Map<Seq<char>, int>,
    ids: Seq<Seq<char>>,
    f: ChildFilter,
) -> bool {
    forall|j: int| 0 <= j < ids.len() && filter_hit(nodes, ids[j], f)
        ==> m.contains_key(#[trigger] ids[j])
}

/// `m2` keeps every resolution `m1` already made.
pub open spec fn map_extends(m1: Map<Seq<char>, int>, m2: Map<Seq<char>, int>) -> bool {
    forall|id: Seq<char>| #[trigger] m1.contains_key(id)
        ==> m2.contains_key(id) && m2[id] == m1[id]
}

/// Distinct ids resolve to distinct slots.
pub open spec fn map_injective(m: Map<Seq<char>, int>) -> bool {
    forall|id1: Seq<char>, id2: Seq<char>|
        m.contains_key(id1) && m.contains_key(id2) && id1 != id2
            ==> m[id1] != m[id2]
}

/// Resolved candidate lists only read resolutions `m` already holds, so a
/// later extension of `m` leaves them as they are.
pub proof fn lemma_resolved_slots_stable(
    nodes: Seq<Node>,
    m1: Map<Seq<char>, int>,
    m2: Map<Seq<char>, int>,
    ids: Seq<Seq<char>>,
    f: ChildFilter,
)
    requires
        slots_resolved(nodes, m1, ids, f),
        map_extends(m1, m2),
    ensures
        slots_resolved(nodes, m2, ids, f),
        resolved_slots(nodes, m2, ids, f) == resolved_slots(nodes, m1, ids, f),
    decreases ids.len(),
{
    if ids.len() > 0 {
        assert forall|j: int| 0 <= j < ids.len() - 1 implies ids.drop_last()[j] == ids[j] by {}
        lemma_resolved_slots_stable(nodes, m1, m2, ids.drop_last(), f);
    }
}

/// Every slot a resolved candidate list contributes is a value of `m`, hence
/// within whatever bound the values of `m` obey.
pub proof fn lemma_resolved_slots_bounds(
    nodes: Seq<Node>,
    m: Map<Seq<char>, int>,
    ids: Seq<Seq<char>>,
    f: ChildFilter,
    bound: int,
)
    requires
        slots_resolved(nodes, m, ids, f),
        forall|id: Seq<char>| #[trigger] m.contains_key(id) ==> 0 <= m[id] < bound,
    ensures
        forall|j: int| 0 <= j < resolved_slots(nodes, m, ids, f).len()
            ==> 0 <= #[trigger] resolved_slots(nodes, m, ids, f)[j] < bound,
    decreases ids.len(),
{
    if ids.len() > 0 {
        assert forall|j: int| 0 <= j < ids.len() - 1 implies ids.drop_last()[j] == ids[j] by {}
        lemma_resolved_slots_bounds(nodes, m, ids.drop_last(), f, bound);
        let rest = resolved_slots(nodes, m, ids.drop_last(), f);
        if filter_hit(nodes, ids.last(), f) {
            assert(ids.last() == ids[ids.len() - 1]);
            assert(m.contains_key(ids.last()));
            assert forall|j: int| 0 <= j < rest.push(m[ids.last()]).len()
                implies 0 <= #[trigger] rest.push(m[ids.last()])[j] < bound by {
                if j < rest.len() {
                    assert(rest.push(m[ids.last()])[j] == rest[j]);
                } else {
                    assert(rest.push(m[ids.last()])[j] == m[ids.last()]);
                }
            }
        }
    }
}

/// How many node ids the memo has not resolved yet; the measure that shrinks
/// as the recursive pass registers placeholders.
pub open spec fn none_count(memo: Seq<Option<usize>>) -> nat
    decreases memo.len(),
{
    if memo.len() == 0 {
        0
    } else {
        none_count(memo.drop_last()) + if memo.last() is None { 1nat } else { 0nat }
    }
}

/// Registering one unresolved id shrinks the measure by exactly one.
pub proof fn lemma_none_count_update(memo: Seq<Option<usize>>, d: int, k: usize)
    requires
        0 <= d < memo.len(),
        memo[d] is None,
    ensures
        none_count(memo) >= 1,
        none_count(memo.update(d, Some(k))) == none_count(memo) - 1,
    decreases memo.len(),
{
    let updated = memo.update(d, Some(k));
    assert(updated.len() == memo.len());
    if d == memo.len() - 1 {
        assert(updated.last() == Some(k));
        assert(updated.drop_last() =~= memo.drop_last());
    } else {
        assert(updated.last() == memo.last());
        assert(updated.drop_last() =~= memo.drop_last().update(d, Some(k)));
        lemma_none_count_update(memo.drop_last(), d, k);
    }
}

/// `m2` keeps every resolution of `m1`.
pub open spec fn memo_extends(m1: Seq<Option<usize>>, m2: Seq<Option<usize>>) -> bool {
    &&& m2.len() == m1.len()
    &&& forall|d: int| 0 <= d < m1.len() && m1[d] is Some ==> m2[d] == m1[d]
}

/// The id-to-slot map the memo encodes: an id resolves to the slot memoized
/// for the last node registered under it.
pub open spec fn memo_map(nodes: Seq<Node>, memo: Seq<Option<usize>>) -> Map<Seq<char>, int> {
    Map::new(
        |id: Seq<char>| registry_lookup(nodes, id) matches Some(d)
            && 0 <= d < memo.len() && memo[d] is Some,
        |id: Seq<char>| memo[registry_lookup(nodes, id).unwrap()].unwrap() as int,
    )
}

/// An index list as mathematical integers.
pub open spec fn ints_of(us: Seq<usize>) -> Seq<int> {
    us.map_values(|u: usize| u as int)
}

/// What it means for the runtime node `rt` to be the resolved form of the
/// declarative node `decl` under the id-to-slot map `m`: the payload fields
/// carry over, the structural children are the resolved slots of the edges
/// pointing *at* the node (filtered to the kind the parent expects), and the
/// sequential successors are the resolved slots of the edges leaving it
/// (unfiltered). An entry error and a command option resolve to leaves.
pub open spec fn node_matches(
    rt: FlowNode,
    decl: Node,
    nodes: Seq<Node>,
    edges: Seq<Edge>,
    m: Map<Seq<char>, int>,
) -> bool {
    match decl {
        Node::EntryCommand { id, data } => {
            &&& rt matches FlowNode::EntryCommand { name, description, options, next }
            &&& name@ == data.name@
            &&& description@ == data.description@
            &&& slots_resolved(nodes, m, edge_sources(edges, id@), ChildFilter::OptionNode)
            &&& ints_of(options@)
                == resolved_slots(nodes, m, edge_sources(edges, id@), ChildFilter::OptionNode)
            &&& slots_resolved(nodes, m, edge_targets(edges, id@), ChildFilter::AnyNode)
            &&& ints_of(next@)
                == resolved_slots(nodes, m, edge_targets(edges, id@), ChildFilter::AnyNode)
        },
        Node::EntryEvent { id, data } => {
            &&& rt matches FlowNode::EntryEvent { event_type, next }
            &&& event_type@ == data.event_type@
            &&& slots_resolved(nodes, m, edge_targets(edges, id@), ChildFilter::AnyNode)
            &&& ints_of(next@)
                == resolved_slots(nodes, m, edge_targets(edges, id@), ChildFilter::AnyNode)
        },
        Node::EntryError { .. } => rt matches FlowNode::EntryError { .. },
        Node::OptionText { id, data } => {
            &&& rt matches FlowNode::CommandOptionText { name, description, required }
            &&& name@ == data.name@
            &&& description@ == data.description@
            &&& required == data.required
        },
        Node::ActionLog { id, data } => {
            &&& rt matches FlowNode::ActionLog { log_level, log_message, next }
            &&& log_level@ == data.log_level@
            &&& log_message@ == data.log_message@
            &&& slots_resolved(nodes, m, edge_targets(edges, id@), ChildFilter::AnyNode)
            &&& ints_of(next@)
                == resolved_slots(nodes, m, edge_targets(edges, id@), ChildFilter::AnyNode)
        },
        Node::ActionResponseText { id, data } => {
            &&& rt matches FlowNode::ActionResponseText { text, next }
            &&& text@ == data.text@
            &&& slots_resolved(nodes, m, edge_targets(edges, id@), ChildFilter::AnyNode)
            &&& ints_of(next@)
                == resolved_slots(nodes, m, edge_targets(edges, id@), ChildFilter::AnyNode)
        },
        Node::ConditionCompare { id, data } => {
            &&& rt matches FlowNode::ConditionCompare { items, base_value, allow_multiple }
            &&& base_value@ == data.condition_base_value@
            &&& allow_multiple == data.condition_allow_multiple
            &&& slots_resolved(nodes, m, edge_sources(edges, id@), ChildFilter::ConditionItemNode)
            &&& ints_of(items@)
                == resolved_slots(
                    nodes, m, edge_sources(edges, id@), ChildFilter::ConditionItemNode)
        },
        Node::ConditionItemCompare { id, data } => {
            &&& rt matches FlowNode::ConditionItemCompare { mode, value, next }
            &&& mode == data.condition_item_mode
            &&& value@ == data.condition_item_value@
            &&& slots_resolved(nodes, m, edge_targets(edges, id@), ChildFilter::NonConditionNode)
            &&& ints_of(next@)
                == resolved_slots(
                    nodes, m, edge_targets(edges, id@), ChildFilter::NonConditionNode)
        },
        Node::ConditionItemElse { id } => {
            &&& rt matches FlowNode::ConditionItemElse { next }
            &&& slots_resolved(nodes, m, edge_targets(edges, id@), ChildFilter::NonConditionNode)
            &&& ints_of(next@)
                == resolved_slots(
                    nodes, m, edge_targets(edges, id@), ChildFilter::NonConditionNode)
        },
    }
}

/// A resolved node only reads resolutions `m` already holds, so a later
/// extension of `m` leaves it resolved in the same way.
pub proof fn lemma_node_matches_stable(
    rt: FlowNode,
    decl: Node,
    nodes: Seq<Node>,
    edges: Seq<Edge>,
    m1: Map<Seq<char>, int>,
    m2: Map<Seq<char>, int>,
)
    requires
        node_matches(rt, decl, nodes, edges, m1),
        map_extends(m1, m2),
    ensures
        node_matches(rt, decl, nodes, edges, m2),
{
    match decl {
        Node::EntryCommand { id, data } => {
            lemma_resolved_slots_stable(
                nodes, m1, m2, edge_sources(edges, id@), ChildFilter::OptionNode);
            lemma_resolved_slots_stable(
                nodes, m1, m2, edge_targets(edges, id@), ChildFilter::AnyNode);
        },
        Node::EntryEvent { id, .. } => {
            lemma_resolved_slots_stable(
                nodes, m1, m2, edge_targets(edges, id@), ChildFilter::AnyNode);
        },
        Node::ActionLog { id, .. } => {
            lemma_resolved_slots_stable(
                nodes, m1, m2, edge_targets(edges, id@), ChildFilter::AnyNode);
        },
        Node::ActionResponseText { id, .. } => {
            lemma_resolved_slots_stable(
                nodes, m1, m2, edge_targets(edges, id@), ChildFilter::AnyNode);
        },
        Node::ConditionCompare { id, .. } => {
            lemma_resolved_slots_stable(
                nodes, m1, m2, edge_sources(edges, id@), ChildFilter::ConditionItemNode);
        },
        Node::ConditionItemCompare { id, .. } => {
            lemma_resolved_slots_stable(
                nodes, m1, m2, edge_targets(edges, id@), ChildFilter::NonConditionNode);
        },
        Node::ConditionItemElse { id } => {
            lemma_resolved_slots_stable(
                nodes, m1, m2, edge_targets(edges, id@), ChildFilter::NonConditionNode);
        },
        _ => {},
    }
}

/// The standing invariant of the construction pass, over the declarative
/// input, the arena built so far and the memo: every memoized id is the last
/// registration of its id, its slot is in the arena, distinct ids own
/// distinct slots, every slot is structurally within bounds, and every
/// memoized slot is either the placeholder still under construction or the
/// resolved form of its declarative node.
pub open spec fn builder_inv(
    nodes: Seq<Node>,
    edges: Seq<Edge>,
    arena: Seq<FlowNode>,
    memo: Seq<Option<usize>>,
) -> bool {
    let m = memo_map(nodes, memo);
    &&& memo.len() == nodes.len()
    &&& forall|d: int| 0 <= d < memo.len() && memo[d] is Some ==> {
        &&& registry_lookup(nodes, nodes[d].spec_id()) == Some(d)
        &&& ((#[trigger] memo[d]).unwrap() as int) < arena.len()
    }
    &&& map_injective(m)
    &&& forall|d: int| 0 <= d < memo.len() && memo[d] is Some ==> {
        let k = (#[trigger] memo[d]).unwrap() as int;
        arena[k] is NoOp || node_matches(arena[k], nodes[d], nodes, edges, m)
    }
    &&& forall|k: int| 0 <= k < arena.len()
        ==> (#[trigger] arena[k]).wf_in(arena.len() as int)
}

/// What construction guarantees of the finished tree: every resolved id
/// owns one in-bounds arena slot holding the resolved form of the last
/// declarative node registered under the id, distinct ids own distinct
/// slots, and no placeholder is left behind.
pub open spec fn tree_resolved(
    nodes: Seq<Node>,
    edges: Seq<Edge>,
    m: Map<Seq<char>, int>,
    arena: Seq<FlowNode>,
) -> bool {
    &&& forall|id: Seq<char>| #[trigger] m.contains_key(id) ==> {
        &&& registry_lookup(nodes, id) matches Some(d)
        &&& 0 <= m[id] < arena.len()
        &&& node_matches(arena[m[id]], nodes[registry_lookup(nodes, id).unwrap()],
                nodes, edges, m)
    }
    &&& map_injective(m)
    &&& forall|k: int| 0 <= k < arena.len() ==> !((#[trigger] arena[k]) is NoOp)
}

/// The entry roots the finished tree owes: one slot per declarative node of
/// an entry kind, in declaration order, resolved through the id-to-slot map.
pub open spec fn entry_slots(nodes: Seq<Node>, m: Map<Seq<char>, int>) -> Seq<int>
    decreases nodes.len(),
{
    if nodes.len() == 0 {
        Seq::empty()
    } else {
        let rest = entry_slots(nodes.drop_last(), m);
        if nodes.last().spec_is_entry() {
            rest.push(m[nodes.last().spec_id()])
        } else {
            rest
        }
    }
}

/// Every entry node's id has been resolved.
pub open spec fn entry_ids_resolved(nodes: Seq<Node>, m: Map<Seq<char>, int>) -> bool {
    forall|i: int| 0 <= i < nodes.len() && (#[trigger] nodes[i]).spec_is_entry()
        ==> m.contains_key(nodes[i].spec_id())
}

/// Entry root lists only read resolutions `m` already holds, so a later
/// extension of `m` leaves them as they are.
pub proof fn lemma_entry_slots_stable(
    nodes: Seq<Node>,
    m1: Map<Seq<char>, int>,
    m2: Map<Seq<char>, int>,
)
    requires
        entry_ids_resolved(nodes, m1),
        map_extends(m1, m2),
    ensures
        entry_ids_resolved(nodes, m2),
        entry_slots(nodes, m2) == entry_slots(nodes, m1),
    decreases nodes.len(),
{
    if nodes.len() > 0 {
        assert forall|i: int| 0 <= i < nodes.len() - 1
            implies nodes.drop_last()[i] == nodes[i] by {}
        assert(nodes.last() == nodes[nodes.len() - 1]);
        lemma_entry_slots_stable(nodes.drop_last(), m1, m2);
    }
}

/// Extending the memo extends the id-to-slot map.
pub proof fn lemma_memo_map_extends(
    nodes: Seq<Node>,
    m1: Seq<Option<usize>>,
    m2: Seq<Option<usize>>,
)
    requires
        memo_extends(m1, m2),
    ensures
        map_extends(memo_map(nodes, m1), memo_map(nodes, m2)),
{
}

/// Registering the placeholder slot `k` for the still-unresolved node `d`
/// keeps the construction invariant and extends the id-to-slot map by just
/// that id.
proof fn lemma_register_placeholder(
    nodes: Seq<Node>,
    edges: Seq<Edge>,
    arena: Seq<FlowNode>,
    memo: Seq<Option<usize>>,
    d: int,
    k: usize,
)
    requires
        builder_inv(nodes, edges, arena, memo),
        0 <= d < memo.len(),
        memo[d] is None,
        registry_lookup(nodes, nodes[d].spec_id()) == Some(d),
        k as int == arena.len(),
    ensures
        builder_inv(nodes, edges, arena.push(FlowNode::NoOp), memo.update(d, Some(k))),
        memo_extends(memo, memo.update(d, Some(k))),
        map_extends(memo_map(nodes, memo), memo_map(nodes, memo.update(d, Some(k)))),
        none_count(memo.update(d, Some(k))) == none_count(memo) - 1,
        memo_map(nodes, memo.update(d, Some(k))).contains_key(nodes[d].spec_id()),
        memo_map(nodes, memo.update(d, Some(k)))[nodes[d].spec_id()] == k as int,
{
    let memo2 = memo.update(d, Some(k));
    let arena2 = arena.push(FlowNode::NoOp);
    let m1 = memo_map(nodes, memo);
    let m2 = memo_map(nodes, memo2);
    lemma_none_count_update(memo, d, k);
    lemma_registry_lookup(nodes, nodes[d].spec_id());

    // Only the id of node `d` gains a resolution: any other id keeps its
    // registry index, which the update leaves alone.
    assert forall|id: Seq<char>| #[trigger] m1.contains_key(id)
        implies m2.contains_key(id) && m2[id] == m1[id] by {
        lemma_registry_lookup(nodes, id);
    }
    assert forall|id: Seq<char>| #[trigger] m2.contains_key(id) && id != nodes[d].spec_id()
        implies m1.contains_key(id) && m2[id] == m1[id] by {
        lemma_registry_lookup(nodes, id);
    }
    assert(m2.contains_key(nodes[d].spec_id()));
    assert(m2[nodes[d].spec_id()] == k as int);

    assert(map_injective(m2)) by {
        assert forall|id1: Seq<char>, id2: Seq<char>|
            m2.contains_key(id1) && m2.contains_key(id2) && id1 != id2
            implies m2[id1] != m2[id2] by {
            if id1 != nodes[d].spec_id() && id2 != nodes[d].spec_id() {
            } else if id1 == nodes[d].spec_id() {
                assert(m1.contains_key(id2));
                assert(0 <= m1[id2] < arena.len());
            } else {
                assert(m1.contains_key(id1));
                assert(0 <= m1[id1] < arena.len());
            }
        }
    }

    assert forall|d2: int| 0 <= d2 < memo2.len() && memo2[d2] is Some implies {
        let k2 = (#[trigger] memo2[d2]).unwrap() as int;
        arena2[k2] is NoOp || node_matches(arena2[k2], nodes[d2], nodes, edges, m2)
    } by {
        let k2 = memo2[d2].unwrap() as int;
        if d2 == d {
            assert(arena2[k2] is NoOp);
        } else {
            assert(memo[d2] == memo2[d2]);
            assert(k2 < arena.len());
            assert(arena2[k2] == arena[k2]);
            if !(arena[k2] is NoOp) {
                lemma_node_matches_stable(arena[k2], nodes[d2], nodes, edges, m1, m2);
            }
        }
    }

    assert forall|k2: int| 0 <= k2 < arena2.len()
        implies (#[trigger] arena2[k2]).wf_in(arena2.len() as int) by {
        if k2 < arena.len() {
            assert(arena2[k2] == arena[k2]);
            assert(arena[k2].wf_in(arena.len() as int));
        } else {
            assert(arena2[k2] is NoOp);
        }
    }
}

/// Overwriting the placeholder of node `d` with its resolved form keeps the
/// construction invariant: by injectivity no other resolved id shares the
/// slot, and the node's own references stay within the arena.
proof fn lemma_finalize_slot(
    nodes: Seq<Node>,
    edges: Seq<Edge>,
    arena: Seq<FlowNode>,
    memo: Seq<Option<usize>>,
    d: int,
    k: usize,
    fin: FlowNode,
)
    requires
        builder_inv(nodes, edges, arena, memo),
        0 <= d < memo.len(),
        memo[d] == Some(k),
        node_matches(fin, nodes[d], nodes, edges, memo_map(nodes, memo)),
        fin.wf_in(arena.len() as int),
    ensures
        builder_inv(nodes, edges, arena.update(k as int, fin), memo),
{
    let arena2 = arena.update(k as int, fin);
    let m = memo_map(nodes, memo);
    assert((k as int) < arena.len());

    assert forall|d2: int| 0 <= d2 < memo.len() && memo[d2] is Some implies {
        let k2 = (#[trigger] memo[d2]).unwrap() as int;
        arena2[k2] is NoOp || node_matches(arena2[k2], nodes[d2], nodes, edges, m)
    } by {
        let k2 = memo[d2].unwrap() as int;
        if k2 == k as int {
            // Two memoized registry indices with one slot would be two ids
            // with one slot, which injectivity rules out.
            let id1 = nodes[d].spec_id();
            let id2 = nodes[d2].spec_id();
            assert(m.contains_key(id1) && m[id1] == k as int);
            assert(m.contains_key(id2) && m[id2] == k2);
            assert(id1 == id2);
            assert(d2 == d);
            assert(arena2[k2] == fin);
        } else {
            assert(arena2[k2] == arena[k2]);
        }
    }

    assert forall|k2: int| 0 <= k2 < arena2.len()
        implies (#[trigger] arena2[k2]).wf_in(arena2.len() as int) by {
        if k2 == k as int {
            assert(arena2[k2] == fin);
        } else {
            assert(arena2[k2] == arena[k2]);
        }
    }
}

/// Resolves a list of candidate ids into arena slots: each id that hits the
/// registry and passes `f` is resolved through `transform_node` (sharing the
/// memoized slot if the id was seen before); the rest are silently dropped.
fn resolve_candidates(
    f: ChildFilter,
    ids: &Vec<String>,
    nodes: &Vec<Node>,
    edges: &Vec<Edge>,
    arena: &mut Vec<FlowNode>,
    memo: &mut Vec<Option<usize>>,
) -> (r: Vec<usize>)
    requires
        builder_inv(nodes@, edges@, old(arena)@, old(memo)@),
    ensures
        builder_inv(nodes@, edges@, final(arena)@, final(memo)@),
        memo_extends(old(memo)@, final(memo)@),
        final(arena)@.len() >= old(arena)@.len(),
        forall|k: int| 0 <= k < old(arena)@.len() ==> final(arena)@[k] == old(arena)@[k],
        forall|k: int| 0 <= k < final(arena)@.len() && (#[trigger] final(arena)@[k]) is NoOp
            ==> k < old(arena)@.len() && old(arena)@[k] is NoOp,
        none_count(final(memo)@) <= none_count(old(memo)@),
        slots_resolved(nodes@, memo_map(nodes@, final(memo)@), views_of(ids@), f),
        ints_of(r@) == resolved_slots(nodes@, memo_map(nodes@, final(memo)@), views_of(ids@), f),
    decreases none_count(memo@), 1int,
{
    let mut out: Vec<usize> = Vec::new();
    let mut j: usize = 0;
    proof {
        assert(views_of(ids@).take(0) =~= Seq::<Seq<char>>::empty());
        assert(ints_of(out@) =~= resolved_slots(
            nodes@, memo_map(nodes@, memo@), views_of(ids@).take(0), f));
    }
    while j < ids.len()
        invariant
            j <= ids.len(),
            builder_inv(nodes@, edges@, arena@, memo@),
            memo_extends(old(memo)@, memo@),
            arena@.len() >= old(arena)@.len(),
            forall|k: int| 0 <= k < old(arena)@.len() ==> arena@[k] == old(arena)@[k],
            forall|k: int| 0 <= k < arena@.len() && (#[trigger] arena@[k]) is NoOp
                ==> k < old(arena)@.len() && old(arena)@[k] is NoOp,
            none_count(memo@) <= none_count(old(memo)@),
            slots_resolved(nodes@, memo_map(nodes@, memo@), views_of(ids@).take(j as int), f),
            ints_of(out@) == resolved_slots(
                nodes@, memo_map(nodes@, memo@), views_of(ids@).take(j as int), f),
        decreases ids@.len() - j,
    {
        proof {
            assert(views_of(ids@).take(j + 1).drop_last() =~= views_of(ids@).take(j as int));
            assert(views_of(ids@).take(j + 1).last() == ids@[j as int]@);
        }
        let hit = lookup(nodes, &ids[j]);
        match hit {
            Option::Some(cd) => {
                proof {
                    lemma_registry_lookup(nodes@, ids@[j as int]@);
                }
                let accept = match f {
                    ChildFilter::AnyNode => true,
                    ChildFilter::NonConditionNode => !nodes[cd].is_condition(),
                    ChildFilter::OptionNode => nodes[cd].is_option(),
                    ChildFilter::ConditionItemNode => matches!(
                        &nodes[cd],
                        Node::ConditionItemCompare { .. } | Node::ConditionItemElse { .. }
                    ),
                };
                if accept {
                    let ghost memo_prev = memo@;
                    let s = transform_node(cd, nodes, edges, arena, memo);
                    proof {
                        lemma_memo_map_extends(nodes@, memo_prev, memo@);
                        lemma_resolved_slots_stable(
                            nodes@,
                            memo_map(nodes@, memo_prev),
                            memo_map(nodes@, memo@),
                            views_of(ids@).take(j as int),
                            f,
                        );
                        assert(filter_hit(nodes@, ids@[j as int]@, f));
                        assert(memo_map(nodes@, memo@)[ids@[j as int]@] == s as int);
                    }
                    out.push(s);
                    proof {
                        assert(ints_of(out@) =~= resolved_slots(
                            nodes@, memo_map(nodes@, memo@), views_of(ids@).take(j + 1), f));
                    }
                } else {
                    proof {
                        assert(!filter_hit(nodes@, ids@[j as int]@, f));
                        assert(ints_of(out@) =~= resolved_slots(
                            nodes@, memo_map(nodes@, memo@), views_of(ids@).take(j + 1), f));
                    }
                }
            },
            Option::None => {
                proof {
                    assert(!filter_hit(nodes@, ids@[j as int]@, f));
                    assert(ints_of(out@) =~= resolved_slots(
                        nodes@, memo_map(nodes@, memo@), views_of(ids@).take(j + 1), f));
                }
            },
        }
        j = j + 1;
    }
    proof {
        assert(views_of(ids@).take(views_of(ids@).len() as int) =~= views_of(ids@));
    }
    out
}

/// Every slot a resolved reference list holds is inside the arena.
proof fn lemma_list_bounds(
    nodes: Seq<Node>,
    edges: Seq<Edge>,
    arena: Seq<FlowNode>,
    memo: Seq<Option<usize>>,
    ids: Seq<Seq<char>>,
    f: ChildFilter,
    v: Seq<usize>,
)
    requires
        builder_inv(nodes, edges, arena, memo),
        slots_resolved(nodes, memo_map(nodes, memo), ids, f),
        ints_of(v) == resolved_slots(nodes, memo_map(nodes, memo), ids, f),
    ensures
        forall|j: int| 0 <= j < v.len() ==> ((#[trigger] v[j]) as int) < arena.len(),
{
    let m = memo_map(nodes, memo);
    assert forall|id: Seq<char>| #[trigger] m.contains_key(id)
        implies 0 <= m[id] < arena.len() by {
        let dd = registry_lookup(nodes, id).unwrap();
        assert(memo[dd] is Some);
    }
    lemma_resolved_slots_bounds(nodes, m, ids, f, arena.len() as int);
    assert forall|j: int| 0 <= j < v.len()
        implies ((#[trigger] v[j]) as int) < arena.len() by {
        assert(ints_of(v)[j] == v[j] as int);
        assert(0 <= resolved_slots(nodes, m, ids, f)[j] < arena.len());
    }
}

/// Resolves the declarative node at registry index `d` into its shared arena
/// slot. If the id was resolved (or is being resolved further up the stack)
/// the memoized slot is returned; otherwise a placeholder slot is registered
/// first, the structural children and sequential successors are resolved
/// recursively, and the slot is then filled with the resolved node.
pub fn transform_node(
    d: usize,
    nodes: &Vec<Node>,
    edges: &Vec<Edge>,
    arena: &mut Vec<FlowNode>,
    memo: &mut Vec<Option<usize>>,
) -> (r: usize)
    requires
        d < nodes@.len(),
        registry_lookup(nodes@, nodes@[d as int].spec_id()) == Some(d as int),
        builder_inv(nodes@, edges@, old(arena)@, old(memo)@),
    ensures
        builder_inv(nodes@, edges@, final(arena)@, final(memo)@),
        memo_extends(old(memo)@, final(memo)@),
        final(arena)@.len() >= old(arena)@.len(),
        forall|k: int| 0 <= k < old(arena)@.len() ==> final(arena)@[k] == old(arena)@[k],
        forall|k: int| 0 <= k < final(arena)@.len() && (#[trigger] final(arena)@[k]) is NoOp
            ==> k < old(arena)@.len() && old(arena)@[k] is NoOp,
        none_count(final(memo)@) <= none_count(old(memo)@),
        (r as int) < final(arena)@.len(),
        final(memo)@[d as int] == Some(r),
        memo_map(nodes@, final(memo)@).contains_key(nodes@[d as int].spec_id()),
        memo_map(nodes@, final(memo)@)[nodes@[d as int].spec_id()] == r as int,
    decreases none_count(memo@), 0int,
{
    if let Option::Some(k) = memo[d] {
        return k;
    }

    // Register the placeholder before recursing into children: a re-entrant
    // reference to this id then shares the slot instead of recursing.
    let k = arena.len();
    let ghost memo0 = memo@;
    let ghost arena0 = arena@;
    arena.push(FlowNode::NoOp);
    memo[d] = Option::Some(k);
    proof {
        assert(memo@ =~= memo0.update(d as int, Some(k)));
        lemma_register_placeholder(nodes@, edges@, arena0, memo0, d as int, k);
    }

    let node = &nodes[d];
    match node {
        Node::EntryCommand { id, data } => {
            let srcs = sources_of(edges, id);
            let options = resolve_candidates(
                ChildFilter::OptionNode, &srcs, nodes, edges, arena, memo);
            let ghost memo_mid = memo@;
            let tgts = targets_of(edges, id);
            let next = resolve_candidates(
                ChildFilter::AnyNode, &tgts, nodes, edges, arena, memo);
            let ghost options_s = options@;
            let ghost next_s = next@;
            proof {
                lemma_memo_map_extends(nodes@, memo_mid, memo@);
                lemma_resolved_slots_stable(
                    nodes@,
                    memo_map(nodes@, memo_mid),
                    memo_map(nodes@, memo@),
                    views_of(srcs@),
                    ChildFilter::OptionNode,
                );
                lemma_list_bounds(nodes@, edges@, arena@, memo@, views_of(srcs@),
                    ChildFilter::OptionNode, options@);
                lemma_list_bounds(nodes@, edges@, arena@, memo@, views_of(tgts@),
                    ChildFilter::AnyNode, next@);
            }
            let fin = FlowNode::EntryCommand {
                name: data.name.clone(),
                description: data.description.clone(),
                options,
                next,
            };
            proof {
                assert(memo@[d as int] == Some(k));
                assert(fin.spec_refs() == options_s + next_s);
                assert forall|j: int| 0 <= j < fin.spec_refs().len()
                    implies ((#[trigger] fin.spec_refs()[j]) as int) < arena@.len() by {
                    if j < options_s.len() {
                        assert(fin.spec_refs()[j] == options_s[j]);
                    } else {
                        assert(fin.spec_refs()[j] == next_s[j - options_s.len()]);
                    }
                }
                assert(node_matches(fin, nodes@[d as int], nodes@, edges@,
                    memo_map(nodes@, memo@)));
                lemma_finalize_slot(nodes@, edges@, arena@, memo@, d as int, k, fin);
            }
            arena[k] = fin;
            k
        },
        Node::EntryEvent { id, data } => {
            let tgts = targets_of(edges, id);
            let next = resolve_candidates(
                ChildFilter::AnyNode, &tgts, nodes, edges, arena, memo);
            proof {
                lemma_list_bounds(nodes@, edges@, arena@, memo@, views_of(tgts@),
                    ChildFilter::AnyNode, next@);
            }
            let fin = FlowNode::EntryEvent { event_type: data.event_type.clone(), next };
            proof {
                assert(memo@[d as int] == Some(k));
                assert(fin.wf_in(arena@.len() as int));
                assert(node_matches(fin, nodes@[d as int], nodes@, edges@,
                    memo_map(nodes@, memo@)));
                lemma_finalize_slot(nodes@, edges@, arena@, memo@, d as int, k, fin);
            }
            arena[k] = fin;
            k
        },
        Node::EntryError { .. } => {
            let fin = FlowNode::EntryError {};
            proof {
                assert(memo@[d as int] == Some(k));
                assert(fin.wf_in(arena@.len() as int));
                lemma_finalize_slot(nodes@, edges@, arena@, memo@, d as int, k, fin);
            }
            arena[k] = fin;
            k
        },
        Node::OptionText { id, data } => {
            let fin = FlowNode::CommandOptionText {
                name: data.name.clone(),
                description: data.description.clone(),
                required: data.required,
            };
            proof {
                assert(memo@[d as int] == Some(k));
                assert(fin.wf_in(arena@.len() as int));
                lemma_finalize_slot(nodes@, edges@, arena@, memo@, d as int, k, fin);
            }
            arena[k] = fin;
            k
        },
        Node::ActionLog { id, data } => {
            let tgts = targets_of(edges, id);
            let next = resolve_candidates(
                ChildFilter::AnyNode, &tgts, nodes, edges, arena, memo);
            proof {
                lemma_list_bounds(nodes@, edges@, arena@, memo@, views_of(tgts@),
                    ChildFilter::AnyNode, next@);
            }
            let fin = FlowNode::ActionLog {
                log_level: data.log_level.clone(),
                log_message: data.log_message.clone(),
                next,
            };
            proof {
                assert(memo@[d as int] == Some(k));
                assert(fin.wf_in(arena@.len() as int));
                assert(node_matches(fin, nodes@[d as int], nodes@, edges@,
                    memo_map(nodes@, memo@)));
                lemma_finalize_slot(nodes@, edges@, arena@, memo@, d as int, k, fin);
            }
            arena[k] = fin;
            k
        },
        Node::ActionResponseText { id, data } => {
            let tgts = targets_of(edges, id);
            let next = resolve_candidates(
                ChildFilter::AnyNode, &tgts, nodes, edges, arena, memo);
            proof {
                lemma_list_bounds(nodes@, edges@, arena@, memo@, views_of(tgts@),
                    ChildFilter::AnyNode, next@);
            }
            let fin = FlowNode::ActionResponseText { text: data.text.clone(), next };
            proof {
                assert(memo@[d as int] == Some(k));
                assert(fin.wf_in(arena@.len() as int));
                assert(node_matches(fin, nodes@[d as int], nodes@, edges@,
                    memo_map(nodes@, memo@)));
                lemma_finalize_slot(nodes@, edges@, arena@, memo@, d as int, k, fin);
            }
            arena[k] = fin;
            k
        },
        Node::ConditionCompare { id, data } => {
            let srcs = sources_of(edges, id);
            let items = resolve_candidates(
                ChildFilter::ConditionItemNode, &srcs, nodes, edges, arena, memo);
            proof {
                lemma_list_bounds(nodes@, edges@, arena@, memo@, views_of(srcs@),
                    ChildFilter::ConditionItemNode, items@);
            }
            let fin = FlowNode::ConditionCompare {
                items,
                base_value: data.condition_base_value.clone(),
                allow_multiple: data.condition_allow_multiple,
            };
            proof {
                assert(memo@[d as int] == Some(k));
                assert(fin.wf_in(arena@.len() as int));
                assert(node_matches(fin, nodes@[d as int], nodes@, edges@,
                    memo_map(nodes@, memo@)));
                lemma_finalize_slot(nodes@, edges@, arena@, memo@, d as int, k, fin);
            }
            arena[k] = fin;
            k
        },
        Node::ConditionItemCompare { id, data } => {
            let tgts = targets_of(edges, id);
            let next = resolve_candidates(
                ChildFilter::NonConditionNode, &tgts, nodes, edges, arena, memo);
            proof {
                lemma_list_bounds(nodes@, edges@, arena@, memo@, views_of(tgts@),
                    ChildFilter::NonConditionNode, next@);
            }
            let fin = FlowNode::ConditionItemCompare {
                mode: data.condition_item_mode,
                value: data.condition_item_value.clone(),
                next,
            };
            proof {
                assert(memo@[d as int] == Some(k));
                assert(fin.wf_in(arena@.len() as int));
                assert(node_matches(fin, nodes@[d as int], nodes@, edges@,
                    memo_map(nodes@, memo@)));
                lemma_finalize_slot(nodes@, edges@, arena@, memo@, d as int, k, fin);
            }
            arena[k] = fin;
            k
        },
        Node::ConditionItemElse { id } => {
            let tgts = targets_of(edges, id);
            let next = resolve_candidates(
                ChildFilter::NonConditionNode, &tgts, nodes, edges, arena, memo);
            proof {
                lemma_list_bounds(nodes@, edges@, arena@, memo@, views_of(tgts@),
                    ChildFilter::NonConditionNode, next@);
            }
            let fin = FlowNode::ConditionItemElse { next };
            proof {
                assert(memo@[d as int] == Some(k));
                assert(fin.wf_in(arena@.len() as int));
                assert(node_matches(fin, nodes@[d as int], nodes@, edges@,
                    memo_map(nodes@, memo@)));
                lemma_finalize_slot(nodes@, edges@, arena@, memo@, d as int, k, fin);
            }
            arena[k] = fin;
            k
        },
    }
}

impl FlowTree {
    /// Builds the executable tree from one declarative graph: indexes the
    /// nodes by id, then resolves every node of an entry kind, in input
    /// order, through the memoized recursive resolver, collecting the shared
    /// slots as the entry roots.
    pub fn new(nodes: &Vec<Node>, edges: &Vec<Edge>) -> (r: FlowTree)
        ensures
            r.wf(),
            tree_resolved(nodes@, edges@, r.slot_of@, r.nodes@),
            entry_ids_resolved(nodes@, r.slot_of@),
            ints_of(r.entries@) == entry_slots(nodes@, r.slot_of@),
    {
        let mut arena: Vec<FlowNode> = Vec::new();
        let mut memo: Vec<Option<usize>> = Vec::new();
        let mut i: usize = 0;
        while i < nodes.len()
            invariant
                i <= nodes@.len(),
                memo@.len() == i as int,
                forall|d: int| 0 <= d < memo@.len() ==> (#[trigger] memo@[d]) is None,
            decreases nodes@.len() - i,
        {
            memo.push(Option::None);
            i = i + 1;
        }
        proof {
            assert(builder_inv(nodes@, edges@, arena@, memo@));
        }

        let mut entries: Vec<usize> = Vec::new();
        let mut i: usize = 0;
        proof {
            assert(nodes@.take(0) =~= Seq::<Node>::empty());
            assert(ints_of(entries@) =~= entry_slots(nodes@.take(0), memo_map(nodes@, memo@)));
        }
        while i < nodes.len()
            invariant
                i <= nodes@.len(),
                memo@.len() == nodes@.len(),
                builder_inv(nodes@, edges@, arena@, memo@),
                forall|k: int| 0 <= k < arena@.len() ==> !((#[trigger] arena@[k]) is NoOp),
                entry_ids_resolved(nodes@.take(i as int), memo_map(nodes@, memo@)),
                ints_of(entries@) == entry_slots(nodes@.take(i as int), memo_map(nodes@, memo@)),
                forall|j: int| 0 <= j < entries@.len()
                    ==> ((#[trigger] entries@[j]) as int) < arena@.len(),
            decreases nodes@.len() - i,
        {
            proof {
                assert(nodes@.take(i + 1).drop_last() =~= nodes@.take(i as int));
                assert(nodes@.take(i + 1).last() == nodes@[i as int]);
            }
            if nodes[i].is_entry() {
                let id = nodes[i].id();
                match lookup(nodes, id) {
                    Option::Some(cd) => {
                        proof {
                            lemma_registry_lookup(nodes@, id@);
                        }
                        let ghost memo_prev = memo@;
                        let s = transform_node(cd, nodes, edges, &mut arena, &mut memo);
                        entries.push(s);
                        proof {
                            lemma_memo_map_extends(nodes@, memo_prev, memo@);
                            lemma_entry_slots_stable(
                                nodes@.take(i as int),
                                memo_map(nodes@, memo_prev),
                                memo_map(nodes@, memo@),
                            );
                            assert(memo_map(nodes@, memo@)[nodes@[i as int].spec_id()]
                                == s as int);
                            assert(ints_of(entries@) =~= entry_slots(
                                nodes@.take(i + 1), memo_map(nodes@, memo@)));
                            assert forall|i2: int|
                                0 <= i2 < i + 1 && (#[trigger] nodes@.take(i + 1)[i2])
                                    .spec_is_entry()
                                implies memo_map(nodes@, memo@).contains_key(
                                    nodes@.take(i + 1)[i2].spec_id()) by {
                                assert(nodes@.take(i + 1)[i2] == nodes@[i2]);
                                if i2 < i {
                                    assert(nodes@.take(i as int)[i2] == nodes@[i2]);
                                }
                            }
                        }
                    },
                    Option::None => {
                        proof {
                            lemma_registry_lookup_hit(nodes@, i as int);
                            assert(false);
                        }
                    },
                }
            } else {
                proof {
                    assert(ints_of(entries@) =~= entry_slots(
                        nodes@.take(i + 1), memo_map(nodes@, memo@)));
                    assert forall|i2: int|
                        0 <= i2 < i + 1 && (#[trigger] nodes@.take(i + 1)[i2]).spec_is_entry()
                        implies memo_map(nodes@, memo@).contains_key(
                            nodes@.take(i + 1)[i2].spec_id()) by {
                        assert(nodes@.take(i + 1)[i2] == nodes@[i2]);
                        assert(i2 < i);
                        assert(nodes@.take(i as int)[i2] == nodes@[i2]);
                    }
                }
            }
            i = i + 1;
        }

        proof {
            assert(nodes@.take(nodes@.len() as int) =~= nodes@);
            let m = memo_map(nodes@, memo@);
            assert forall|id: Seq<char>| #[trigger] m.contains_key(id) implies {
                &&& registry_lookup(nodes@, id) matches Some(dd)
                &&& 0 <= m[id] < arena@.len()
                &&& node_matches(arena@[m[id]], nodes@[registry_lookup(nodes@, id).unwrap()],
                        nodes@, edges@, m)
            } by {
                let dd = registry_lookup(nodes@, id).unwrap();
                assert(memo@[dd] is Some);
                assert(!(arena@[memo@[dd].unwrap() as int] is NoOp));
            }
        }
        let ghost m = memo_map(nodes@, memo@);
        FlowTree { nodes: arena, entries, slot_of: Ghost(m) }
    }
}

} // verus!

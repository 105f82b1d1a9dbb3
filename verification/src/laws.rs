//! The structural laws of the library, stated and proved over the same
//! specification functions the construction and dispatch contracts use.

use vstd::prelude::*;
use crate::data::Node;
use crate::event::{
    visit_list, visit_node, DispatchError, Effect, DEPTH_LIMIT,
};
use crate::index::registry_lookup;
use crate::parse::{filter_hit, resolved_slots, slots_resolved, ChildFilter};
use crate::tree::FlowNode;

verus! {

/// The candidate ids that survive resolution under `f`, in order: the ids
/// whose targets a resolved reference list actually holds.
pub open spec fn surviving(nodes: Seq<Node>, ids: Seq<Seq<char>>, f: ChildFilter) -> Seq<
    Seq<char>,
>
    decreases ids.len(),
{
    if ids.len() == 0 {
        Seq::empty()
    } else {
        let rest = surviving(nodes, ids.drop_last(), f);
        if filter_hit(nodes, ids.last(), f) {
            rest.push(ids.last())
        } else {
            rest
        }
    }
}

/// Each position of a resolved reference list is the shared slot `m[id]` of
/// the surviving id at the same position.
pub proof fn lemma_resolved_slots_are_shared(
    nodes: Seq<Node>,
    m: Map<Seq<char>, int>,
    ids: Seq<Seq<char>>,
    f: ChildFilter,
)
    requires
        slots_resolved(nodes, m, ids, f),
    ensures
        resolved_slots(nodes, m, ids, f).len() == surviving(nodes, ids, f).len(),
        forall|j: int| 0 <= j < surviving(nodes, ids, f).len() ==> {
            &&& m.contains_key(#[trigger] surviving(nodes, ids, f)[j])
            &&& resolved_slots(nodes, m, ids, f)[j] == m[surviving(nodes, ids, f)[j]]
        },
    decreases ids.len(),
{
    if ids.len() > 0 {
        assert forall|j: int| 0 <= j < ids.len() - 1
            implies ids.drop_last()[j] == ids[j] by {}
        lemma_resolved_slots_are_shared(nodes, m, ids.drop_last(), f);
        if filter_hit(nodes, ids.last(), f) {
            assert(ids.last() == ids[ids.len() - 1]);
            assert(m.contains_key(ids.last()));
        }
    }
}

/// Identity law: within one construction pass, any two resolved references
/// to the same node id — from whatever candidate lists, under whatever
/// kind filters — are the same shared slot, however many edges point to
/// the id.
pub proof fn lemma_reference_identity(
    nodes: Seq<Node>,
    m: Map<Seq<char>, int>,
    ids1: Seq<Seq<char>>,
    f1: ChildFilter,
    j1: int,
    ids2: Seq<Seq<char>>,
    f2: ChildFilter,
    j2: int,
)
    requires
        slots_resolved(nodes, m, ids1, f1),
        slots_resolved(nodes, m, ids2, f2),
        0 <= j1 < surviving(nodes, ids1, f1).len(),
        0 <= j2 < surviving(nodes, ids2, f2).len(),
        surviving(nodes, ids1, f1)[j1] == surviving(nodes, ids2, f2)[j2],
    ensures
        resolved_slots(nodes, m, ids1, f1)[j1] == resolved_slots(nodes, m, ids2, f2)[j2],
{
    lemma_resolved_slots_are_shared(nodes, m, ids1, f1);
    lemma_resolved_slots_are_shared(nodes, m, ids2, f2);
}

/// Dangling-edge law: an id absent from the node list never survives
/// resolution, so no resolved reference list holds a contribution from a
/// dangling edge end.
pub proof fn lemma_dangling_dropped(
    nodes: Seq<Node>,
    ids: Seq<Seq<char>>,
    f: ChildFilter,
    id: Seq<char>,
)
    requires
        registry_lookup(nodes, id) is None,
    ensures
        !surviving(nodes, ids, f).contains(id),
    decreases ids.len(),
{
    if ids.len() > 0 {
        lemma_dangling_dropped(nodes, ids.drop_last(), f, id);
        if surviving(nodes, ids, f).contains(id) {
            let j = choose|j: int| 0 <= j < surviving(nodes, ids, f).len()
                && surviving(nodes, ids, f)[j] == id;
            let rest = surviving(nodes, ids.drop_last(), f);
            if filter_hit(nodes, ids.last(), f) {
                if j < rest.len() {
                    assert(rest.contains(id));
                } else {
                    assert(ids.last() == id);
                }
            } else {
                assert(rest.contains(id));
            }
        }
    }
}

/// Entry-gating law, closed direction: an event entry whose event type
/// differs from the dispatched kind emits nothing and visits none of its
/// successors.
pub proof fn lemma_entry_event_gated(arena: Seq<FlowNode>, k: int, ek: Seq<char>, depth: nat)
    requires
        0 <= k < arena.len(),
        arena[k] matches FlowNode::EntryEvent { event_type, .. } && event_type@ != ek,
        depth <= DEPTH_LIMIT,
    ensures
        visit_node(arena, k, ek, depth) == (Seq::<Effect>::empty(), None::<DispatchError>),
{
}

/// Entry-gating law, open direction: an event entry whose event type equals
/// the dispatched kind walks exactly its successor list, one level deeper.
pub proof fn lemma_entry_event_fires(arena: Seq<FlowNode>, k: int, ek: Seq<char>, depth: nat)
    requires
        0 <= k < arena.len(),
        arena[k] matches FlowNode::EntryEvent { event_type, .. } && event_type@ == ek,
        depth <= DEPTH_LIMIT,
    ensures
        visit_node(arena, k, ek, depth) == visit_list(
            arena, arena[k]->EntryEvent_next@, ek, depth + 1),
{
}

} // verus!

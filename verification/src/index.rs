//! Adjacency views over the flat edge list (the graph index) and id lookup
//! over the flat node list (the node registry).
//!
//! The registry collapses duplicate ids to the last node carrying the id,
//! and no validation of dangling ids happens here: an edge end that misses
//! the registry is dropped by whichever consumer looks it up.

use vstd::prelude::*;
use crate::data::{Edge, Node};

verus! {

/// The views of a sequence of strings.
pub open spec fn views_of(ss: Seq<String>) -> Seq<Seq<char>> {
    ss.map_values(|s: String| s@)
}

/// The index of the last node carrying `id`, if any: later nodes overwrite
/// earlier ones registered under the same id.
pub open spec fn registry_lookup(nodes: Seq<Node>, id: Seq<char>) -> Option<int>
    decreases nodes.len(),
{
    if nodes.len() == 0 {
        None
    } else if nodes.last().spec_id() == id {
        Some(nodes.len() - 1)
    } else {
        registry_lookup(nodes.drop_last(), id)
    }
}

/// The targets of the edges whose source is `id`, in edge order: the
/// sequential ("next") adjacency view.
pub open spec fn edge_targets(edges: Seq<Edge>, id: Seq<char>) -> Seq<Seq<char>>
    decreases edges.len(),
{
    if edges.len() == 0 {
        Seq::empty()
    } else {
        let rest = edge_targets(edges.drop_last(), id);
        if edges.last().source@ == id {
            rest.push(edges.last().target@)
        } else {
            rest
        }
    }
}

/// The sources of the edges whose target is `id`, in edge order: the
/// structural ("child") adjacency view.
pub open spec fn edge_sources(edges: Seq<Edge>, id: Seq<char>) -> Seq<Seq<char>>
    decreases edges.len(),
{
    if edges.len() == 0 {
        Seq::empty()
    } else {
        let rest = edge_sources(edges.drop_last(), id);
        if edges.last().target@ == id {
            rest.push(edges.last().source@)
        } else {
            rest
        }
    }
}

/// What a successful registry lookup means: the hit carries the id and is
/// the last node to do so; a miss means no node carries the id.
pub proof fn lemma_registry_lookup(nodes: Seq<Node>, id: Seq<char>)
    ensures
        match registry_lookup(nodes, id) {
            Some(d) => {
                &&& 0 <= d < nodes.len()
                &&& nodes[d].spec_id() == id
                &&& forall|i: int| d < i < nodes.len() ==> nodes[i].spec_id() != id
            },
            None => forall|i: int| 0 <= i < nodes.len() ==> nodes[i].spec_id() != id,
        },
    decreases nodes.len(),
{
    if nodes.len() > 0 && nodes.last().spec_id() != id {
        lemma_registry_lookup(nodes.drop_last(), id);
        assert forall|i: int| 0 <= i < nodes.len() - 1 implies nodes[i] == nodes.drop_last()[i] by {}
    }
}

/// The id of any node in the list is found by the registry.
pub proof fn lemma_registry_lookup_hit(nodes: Seq<Node>, i: int)
    requires
        0 <= i < nodes.len(),
    ensures
        registry_lookup(nodes, nodes[i].spec_id()) matches Some(d) && i <= d,
    decreases nodes.len(),
{
    if nodes.last().spec_id() != nodes[i].spec_id() {
        lemma_registry_lookup_hit(nodes.drop_last(), i);
    }
}

/// Looks `id` up in the node registry, returning the index of the last node
/// carrying it.
pub fn lookup(nodes: &Vec<Node>, id: &String) -> (r: Option<usize>)
    ensures
        match r {
            Some(d) => registry_lookup(nodes@, id@) == Some(d as int),
            None => registry_lookup(nodes@, id@) is None,
        },
{
    let mut i: usize = nodes.len();
    proof {
        assert(nodes@.take(nodes@.len() as int) =~= nodes@);
    }
    while i > 0
        invariant
            i <= nodes.len(),
            registry_lookup(nodes@, id@) == registry_lookup(nodes@.take(i as int), id@),
        decreases i,
    {
        i = i - 1;
        proof {
            assert(nodes@.take(i + 1).last() == nodes@[i as int]);
            assert(nodes@.take(i + 1).drop_last() =~= nodes@.take(i as int));
        }
        let nid = nodes[i].id();
        if *nid == *id {
            proof {
                assert(registry_lookup(nodes@.take(i + 1), id@) == Some(i as int));
            }
            return Some(i);
        }
    }
    proof {
        assert(nodes@.take(0) =~= Seq::<Node>::empty());
    }
    None
}

/// All edge targets whose source is `id`, in edge order.
pub fn targets_of(edges: &Vec<Edge>, id: &String) -> (r: Vec<String>)
    ensures
        views_of(r@) == edge_targets(edges@, id@),
{
    let mut out: Vec<String> = Vec::new();
    let mut i: usize = 0;
    proof {
        assert(edges@.take(0) =~= Seq::<Edge>::empty());
        assert(views_of(out@) =~= edge_targets(edges@.take(0), id@));
    }
    while i < edges.len()
        invariant
            i <= edges.len(),
            views_of(out@) == edge_targets(edges@.take(i as int), id@),
        decreases edges.len() - i,
    {
        proof {
            assert(edges@.take(i + 1).last() == edges@[i as int]);
            assert(edges@.take(i + 1).drop_last() =~= edges@.take(i as int));
        }
        if edges[i].source == *id {
            let t = edges[i].target.clone();
            out.push(t);
            proof {
                assert(views_of(out@) =~= edge_targets(edges@.take(i + 1), id@));
            }
        } else {
            proof {
                assert(views_of(out@) =~= edge_targets(edges@.take(i + 1), id@));
            }
        }
        i = i + 1;
    }
    proof {
        assert(edges@.take(edges@.len() as int) =~= edges@);
    }
    out
}

/// All edge sources whose target is `id`, in edge order.
pub fn sources_of(edges: &Vec<Edge>, id: &String) -> (r: Vec<String>)
    ensures
        views_of(r@) == edge_sources(edges@, id@),
{
    let mut out: Vec<String> = Vec::new();
    let mut i: usize = 0;
    proof {
        assert(edges@.take(0) =~= Seq::<Edge>::empty());
        assert(views_of(out@) =~= edge_sources(edges@.take(0), id@));
    }
    while i < edges.len()
        invariant
            i <= edges.len(),
            views_of(out@) == edge_sources(edges@.take(i as int), id@),
        decreases edges.len() - i,
    {
        proof {
            assert(edges@.take(i + 1).last() == edges@[i as int]);
            assert(edges@.take(i + 1).drop_last() =~= edges@.take(i as int));
        }
        if edges[i].target == *id {
            let s = edges[i].source.clone();
            out.push(s);
            proof {
                assert(views_of(out@) =~= edge_sources(edges@.take(i + 1), id@));
            }
        } else {
            proof {
                assert(views_of(out@) =~= edge_sources(edges@.take(i + 1), id@));
            }
        }
        i = i + 1;
    }
    proof {
        assert(edges@.take(edges@.len() as int) =~= edges@);
    }
    out
}

} // verus!

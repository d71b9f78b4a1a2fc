//! Properties that relate several operations of the topology.
use vstd::prelude::*;

use crate::counting::lemma_count_update;
use crate::csr::{csr_targets, out_targets, reversed};
use crate::topology::{is_true, scrub, EdgeSlot, TopologyView};

verus! {

/// After `k` nodes are added to an empty topology, slots `0 .. k` are live
/// and nothing else is.
proof fn lemma_fresh_nodes(k: nat)
    ensures
        TopologyView::empty().with_nodes(k).live == Seq::new(k, |i: int| true),
        TopologyView::empty().with_nodes(k).edges == Seq::<EdgeSlot>::empty(),
    decreases k,
{
    if k > 0 {
        lemma_fresh_nodes((k - 1) as nat);
        assert(TopologyView::empty().with_nodes(k).live =~= Seq::new(k, |i: int| true));
    }
}

/// Slots `0 .. k` of `k` nodes added to an empty topology are live.
pub proof fn lemma_fresh_nodes_live(k: nat)
    ensures
        forall|i: u32| #[trigger] TopologyView::empty().with_nodes(k).is_live(i) <==> (i as nat) < k,
{
    lemma_fresh_nodes(k);
}

/// Clearing restarts the identifiers. `clear` leaves the empty view, the one
/// a new topology starts from; adding nodes to it hands out `0, 1, 2, ...`
/// (the `j`-th added node gets id `j`), and once `n` nodes are in, an edge
/// between `a` and `b` is accepted exactly when both are below `n`.
pub proof fn law_clear_restarts_ids(n: nat, j: nat, a: u32, b: u32)
    requires
        j < n,
    ensures
        TopologyView::empty().with_nodes(j).node_bound() == j,
        (TopologyView::empty().with_nodes(n).is_live(a) && TopologyView::empty().with_nodes(
            n,
        ).is_live(b)) <==> (a < n && b < n),
        TopologyView::empty().with_nodes(n).edges.len() == 0,
{
    lemma_fresh_nodes(j);
    lemma_fresh_nodes(n);
}

/// No live edge of `edges` touches `id`, so no neighbour list names it.
proof fn lemma_untouched_lists(edges: Seq<EdgeSlot>, id: u32, s: u32)
    requires
        forall|i: int|
            0 <= i < edges.len() ==> match #[trigger] edges[i] {
                Some((a, b)) => a != id && b != id,
                None => true,
            },
    ensures
        !out_targets(edges, s).contains(id),
        !out_targets(reversed(edges), s).contains(id),
        out_targets(edges, id).len() == 0,
        out_targets(reversed(edges), id).len() == 0,
    decreases edges.len(),
{
    if edges.len() > 0 {
        let rest = edges.drop_last();
        assert forall|i: int|
            0 <= i < rest.len() implies match #[trigger] rest[i] {
            Some((a, b)) => a != id && b != id,
            None => true,
        } by {
            assert(rest[i] == edges[i]);
        }
        lemma_untouched_lists(rest, id, s);
        assert(reversed(edges).drop_last() =~= reversed(rest));
        assert(edges[edges.len() - 1] == edges.last());
    }
}

proof fn lemma_untouched_rows(edges: Seq<EdgeSlot>, id: u32, k: nat)
    requires
        k <= u32::MAX + 1,
        forall|i: int|
            0 <= i < edges.len() ==> match #[trigger] edges[i] {
                Some((a, b)) => a != id && b != id,
                None => true,
            },
    ensures
        !csr_targets(edges, k).contains(id),
        !csr_targets(reversed(edges), k).contains(id),
    decreases k,
{
    if k > 0 {
        lemma_untouched_rows(edges, id, (k - 1) as nat);
        lemma_untouched_lists(edges, id, (k - 1) as u32);
        let r = reversed(edges);
        assert forall|i: int|
            0 <= i < r.len() implies match #[trigger] r[i] {
            Some((a, b)) => a != id && b != id,
            None => true,
        } by {
            assert(r[i] == crate::csr::flip(edges[i]));
        }
        let a = csr_targets(edges, (k - 1) as nat);
        let b = out_targets(edges, (k - 1) as u32);
        assert(!(a + b).contains(id)) by {
            if (a + b).contains(id) {
                let x = choose|x: int| 0 <= x < (a + b).len() && (a + b)[x] == id;
                if x < a.len() {
                    assert(a[x] == id);
                } else {
                    assert(b[x - a.len()] == id);
                }
            }
        }
        let c = csr_targets(r, (k - 1) as nat);
        let d = out_targets(r, (k - 1) as u32);
        assert(!(c + d).contains(id)) by {
            if (c + d).contains(id) {
                let x = choose|x: int| 0 <= x < (c + d).len() && (c + d)[x] == id;
                if x < c.len() {
                    assert(c[x] == id);
                } else {
                    assert(d[x - c.len()] == id);
                }
            }
        }
    }
}

/// Removing a live node takes it out of the live count, leaves the slot
/// bound as it was, and leaves no trace of it in either compressed export:
/// no neighbour list names it and its own rows are empty.
pub proof fn law_removal(v: TopologyView, id: u32)
    requires
        v.is_live(id),
        v.node_bound() <= u32::MAX,
    ensures
        v.without_node(id).node_count() + 1 == v.node_count(),
        v.without_node(id).node_bound() == v.node_bound(),
        !csr_targets(v.without_node(id).edges, v.node_bound()).contains(id),
        !csr_targets(reversed(v.without_node(id).edges), v.node_bound()).contains(id),
        out_targets(v.without_node(id).edges, id).len() == 0,
        out_targets(reversed(v.without_node(id).edges), id).len() == 0,
{
    lemma_count_update(v.live, id as int, false, |b: bool| is_true(b));
    let w = v.without_node(id);
    assert forall|i: int|
        0 <= i < w.edges.len() implies match #[trigger] w.edges[i] {
        Some((a, b)) => a != id && b != id,
        None => true,
    } by {
        assert(w.edges[i] == scrub(v.edges[i], id));
    }
    lemma_untouched_rows(w.edges, id, v.node_bound());
    lemma_untouched_lists(w.edges, id, id);
}

} // verus!

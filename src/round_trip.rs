//! Rebuilding a topology from its own compressed export.
use vstd::prelude::*;

use crate::csr::{
    csr, csr_offsets, csr_targets, edge_pairs_of, min_int, node_degrees, out_targets,
    pairs_of_rows, reversed, row_pairs,
};
use crate::topology::{accepted_pairs, EdgeSlot, TopologyView};

verus! {

/// `[s, ts[0], s, ts[1], ...]`.
pub open spec fn interleave(s: u32, ts: Seq<u32>) -> Seq<u32>
    decreases ts.len(),
{
    if ts.len() == 0 {
        Seq::empty()
    } else {
        interleave(s, ts.drop_last()) + seq![s, ts.last()]
    }
}

/// The flat pairs of nodes `0 .. k`: each node with each of its targets.
pub open spec fn grouped(edges: Seq<EdgeSlot>, k: nat) -> Seq<u32>
    decreases k,
{
    if k == 0 {
        Seq::empty()
    } else {
        grouped(edges, (k - 1) as nat) + interleave((k - 1) as u32, out_targets(edges, (k - 1) as u32))
    }
}

/// A flat pair array read as edge slots.
pub open spec fn as_slots(p: Seq<u32>) -> Seq<EdgeSlot> {
    Seq::new(p.len() / 2, |i: int| Some((p[2 * i], p[2 * i + 1])))
}

/// Every live edge joins two slots below `bound`.
pub open spec fn within(edges: Seq<EdgeSlot>, bound: nat) -> bool {
    forall|i: int|
        0 <= i < edges.len() ==> match #[trigger] edges[i] {
            Some((a, b)) => a < bound && b < bound,
            None => true,
        }
}

/// Number of live edges whose target is `v`.
pub open spec fn in_count(edges: Seq<EdgeSlot>, v: u32) -> nat
    decreases edges.len(),
{
    if edges.len() == 0 {
        0
    } else {
        in_count(edges.drop_last(), v) + match edges.last() {
            Some((_, b)) => if b == v {
                1nat
            } else {
                0nat
            },
            None => 0nat,
        }
    }
}

/// Occurrences of `v` in `ts`.
pub open spec fn occurrences(ts: Seq<u32>, v: u32) -> nat
    decreases ts.len(),
{
    if ts.len() == 0 {
        0
    } else {
        occurrences(ts.drop_last(), v) + if ts.last() == v {
            1nat
        } else {
            0nat
        }
    }
}

/// Occurrences of `v` in the target lists of nodes `0 .. k`.
pub open spec fn occurrences_below(edges: Seq<EdgeSlot>, k: nat, v: u32) -> nat
    decreases k,
{
    if k == 0 {
        0
    } else {
        occurrences_below(edges, (k - 1) as nat, v) + occurrences(out_targets(edges, (k - 1) as u32), v)
    }
}

proof fn lemma_interleave_len(s: u32, ts: Seq<u32>)
    ensures
        interleave(s, ts).len() == 2 * ts.len(),
    decreases ts.len(),
{
    if ts.len() > 0 {
        lemma_interleave_len(s, ts.drop_last());
    }
}

proof fn lemma_grouped_len(edges: Seq<EdgeSlot>, k: nat)
    requires
        k <= u32::MAX + 1,
    ensures
        grouped(edges, k).len() == 2 * csr_targets(edges, k).len(),
    decreases k,
{
    if k > 0 {
        lemma_grouped_len(edges, (k - 1) as nat);
        lemma_interleave_len((k - 1) as u32, out_targets(edges, (k - 1) as u32));
    }
}

proof fn lemma_row_is_interleave(t: Seq<u32>, s: u32, a: int, b: int)
    requires
        0 <= a <= b <= t.len(),
    ensures
        row_pairs(t, s, a, b) == interleave(s, t.subrange(a, b)),
    decreases b - a,
{
    if a < b {
        lemma_row_is_interleave(t, s, a, b - 1);
        assert(t.subrange(a, b).drop_last() =~= t.subrange(a, b - 1));
    } else {
        assert(t.subrange(a, b) =~= Seq::<u32>::empty());
    }
}

proof fn lemma_targets_prefix(edges: Seq<EdgeSlot>, k: nat, m: nat)
    requires
        k <= m,
    ensures
        csr_targets(edges, k).len() <= csr_targets(edges, m).len(),
        csr_targets(edges, m).subrange(0, csr_targets(edges, k).len() as int) == csr_targets(edges, k),
    decreases m - k,
{
    if k < m {
        lemma_targets_prefix(edges, k, (m - 1) as nat);
        let a = csr_targets(edges, (m - 1) as nat);
        let c = csr_targets(edges, m);
        assert(c == a + out_targets(edges, (m - 1) as u32));
        assert(c.subrange(0, csr_targets(edges, k).len() as int) =~= a.subrange(
            0,
            csr_targets(edges, k).len() as int,
        ));
    } else {
        assert(csr_targets(edges, m).subrange(0, csr_targets(edges, k).len() as int) =~= csr_targets(
            edges,
            k,
        ));
    }
}

/// Reading an export back row by row gives each node paired with each of
/// its targets, node by node.
proof fn lemma_rows_grouped(edges: Seq<EdgeSlot>, bound: nat, k: nat)
    requires
        k <= bound <= u32::MAX,
        csr_targets(edges, bound).len() <= u32::MAX,
    ensures
        pairs_of_rows(csr_offsets(edges, bound), csr_targets(edges, bound), k) == grouped(edges, k),
    decreases k,
{
    if k > 0 {
        lemma_rows_grouped(edges, bound, (k - 1) as nat);
        let t = csr_targets(edges, bound);
        let off = csr_offsets(edges, bound);
        let s = (k - 1) as int;
        lemma_targets_prefix(edges, k, bound);
        lemma_targets_prefix(edges, (k - 1) as nat, k);
        let lo = csr_targets(edges, (k - 1) as nat).len() as int;
        let hi = csr_targets(edges, k).len() as int;
        lemma_targets_prefix(edges, (k - 1) as nat, bound);
        assert(off[s] as int == lo);
        assert(off[s + 1] as int == hi);
        assert(min_int(off[s + 1] as int, t.len() as int) == hi);
        lemma_row_is_interleave(t, s as u32, lo, hi);
        assert(t.subrange(lo, hi) =~= out_targets(edges, s as u32)) by {
            assert(csr_targets(edges, k) == csr_targets(edges, (k - 1) as nat) + out_targets(edges, s as u32));
            assert forall|j: int| 0 <= j < hi - lo implies t.subrange(lo, hi)[j] == out_targets(
                edges,
                s as u32,
            )[j] by {
                assert(t.subrange(0, hi)[lo + j] == csr_targets(edges, k)[lo + j]);
            }
        }
    }
}

proof fn lemma_export_pairs(edges: Seq<EdgeSlot>, bound: nat)
    requires
        bound <= u32::MAX,
        edges.len() <= u32::MAX,
    ensures
        edge_pairs_of(csr(edges, bound), bound) == grouped(edges, bound),
{
    crate::csr::lemma_csr_targets_len(edges, bound);
    let data = csr(edges, bound);
    assert(data.take(bound + 1 as int) =~= csr_offsets(edges, bound));
    assert(data.skip(bound + 1 as int) =~= csr_targets(edges, bound));
    lemma_grouped_len(edges, bound);
    if data.len() <= bound + 1 {
        assert(grouped(edges, bound) =~= Seq::<u32>::empty());
    } else {
        lemma_rows_grouped(edges, bound, bound);
    }
}

proof fn lemma_slots_append(p: Seq<u32>, q: Seq<u32>)
    requires
        p.len() % 2 == 0,
    ensures
        as_slots(p + q) == as_slots(p) + as_slots(q),
{
    assert forall|i: int| 0 <= i < as_slots(p + q).len() implies as_slots(p + q)[i] == (as_slots(p)
        + as_slots(q))[i] by {
        if i >= p.len() / 2 {
            let j = i - p.len() / 2;
            assert(2 * i == p.len() + 2 * j);
        }
    }
    assert(as_slots(p + q) =~= as_slots(p) + as_slots(q));
}

proof fn lemma_out_append(a: Seq<EdgeSlot>, c: Seq<EdgeSlot>, v: u32)
    ensures
        out_targets(a + c, v) == out_targets(a, v) + out_targets(c, v),
    decreases c.len(),
{
    if c.len() == 0 {
        assert(a + c =~= a);
    } else {
        lemma_out_append(a, c.drop_last(), v);
        assert((a + c).drop_last() =~= a + c.drop_last());
    }
}

proof fn lemma_in_append(a: Seq<EdgeSlot>, c: Seq<EdgeSlot>, v: u32)
    ensures
        in_count(a + c, v) == in_count(a, v) + in_count(c, v),
    decreases c.len(),
{
    if c.len() == 0 {
        assert(a + c =~= a);
    } else {
        lemma_in_append(a, c.drop_last(), v);
        assert((a + c).drop_last() =~= a + c.drop_last());
    }
}

proof fn lemma_interleave_slots(s: u32, ts: Seq<u32>, v: u32)
    ensures
        out_targets(as_slots(interleave(s, ts)), v) == if v == s {
            ts
        } else {
            Seq::<u32>::empty()
        },
        in_count(as_slots(interleave(s, ts)), v) == occurrences(ts, v),
    decreases ts.len(),
{
    lemma_interleave_len(s, ts);
    if ts.len() == 0 {
        assert(as_slots(interleave(s, ts)) =~= Seq::<EdgeSlot>::empty());
    } else {
        let rest = ts.drop_last();
        lemma_interleave_slots(s, rest, v);
        lemma_interleave_len(s, rest);
        lemma_slots_append(interleave(s, rest), seq![s, ts.last()]);
        let tail = as_slots(seq![s, ts.last()]);
        assert(tail =~= seq![Some((s, ts.last()))]);
        lemma_out_append(as_slots(interleave(s, rest)), tail, v);
        lemma_in_append(as_slots(interleave(s, rest)), tail, v);
        let t = ts.last();
        assert(tail.drop_last() =~= Seq::<EdgeSlot>::empty());
        assert(tail.last() == Some((s, t)));
        assert(out_targets(tail.drop_last(), v) == Seq::<u32>::empty());
        assert(in_count(tail.drop_last(), v) == 0);
        assert(out_targets(tail, v) == (if s == v {
            seq![t]
        } else {
            Seq::<u32>::empty()
        }));
        assert(interleave(s, ts) == interleave(s, rest) + seq![s, t]);
        assert(occurrences(ts, v) == occurrences(rest, v) + if t == v {
            1nat
        } else {
            0nat
        });
        if v == s {
            assert(out_targets(as_slots(interleave(s, ts)), v) =~= ts);
        } else {
            assert(out_targets(as_slots(interleave(s, ts)), v) =~= Seq::<u32>::empty());
        }
    }
}

proof fn lemma_grouped_lists(edges: Seq<EdgeSlot>, k: nat, v: u32)
    requires
        k <= u32::MAX + 1,
    ensures
        out_targets(as_slots(grouped(edges, k)), v) == if (v as nat) < k {
            out_targets(edges, v)
        } else {
            Seq::<u32>::empty()
        },
        in_count(as_slots(grouped(edges, k)), v) == occurrences_below(edges, k, v),
        grouped(edges, k).len() % 2 == 0,
    decreases k,
{
    if k == 0 {
        assert(as_slots(grouped(edges, k)) =~= Seq::<EdgeSlot>::empty());
    } else {
        let s = (k - 1) as u32;
        let prev = grouped(edges, (k - 1) as nat);
        let row = interleave(s, out_targets(edges, s));
        lemma_grouped_lists(edges, (k - 1) as nat, v);
        lemma_interleave_len(s, out_targets(edges, s));
        lemma_slots_append(prev, row);
        lemma_out_append(as_slots(prev), as_slots(row), v);
        lemma_in_append(as_slots(prev), as_slots(row), v);
        lemma_interleave_slots(s, out_targets(edges, s), v);
        if (v as nat) < k - 1 {
            assert(out_targets(as_slots(grouped(edges, k)), v) =~= out_targets(edges, v));
        } else if v == s {
            assert(out_targets(as_slots(grouped(edges, k)), v) =~= out_targets(edges, v));
        } else {
            assert(out_targets(as_slots(grouped(edges, k)), v) =~= Seq::<u32>::empty());
        }
    }
}

proof fn lemma_occurrences_push(edges: Seq<EdgeSlot>, e: EdgeSlot, k: nat, v: u32)
    requires
        k <= u32::MAX + 1,
    ensures
        occurrences_below(edges.push(e), k, v) == occurrences_below(edges, k, v) + match e {
            Some((a, b)) => if (a as nat) < k && b == v {
                1nat
            } else {
                0nat
            },
            None => 0nat,
        },
    decreases k,
{
    if k > 0 {
        lemma_occurrences_push(edges, e, (k - 1) as nat, v);
        let s = (k - 1) as u32;
        assert(edges.push(e).drop_last() =~= edges);
        let base = out_targets(edges, s);
        let extra = match e {
            Some((a, b)) => if a == s {
                seq![b]
            } else {
                Seq::<u32>::empty()
            },
            None => Seq::<u32>::empty(),
        };
        assert(out_targets(edges.push(e), s) == base + extra);
        if extra.len() == 1 {
            assert((base + extra).drop_last() =~= base);
            assert((base + extra).last() == extra[0]);
            assert(occurrences(base + extra, v) == occurrences(base, v) + if extra[0] == v {
                1nat
            } else {
                0nat
            });
        } else {
            assert(base + extra =~= base);
        }
    }
}

/// With every source below `bound`, the targets equal to `v` across the lists
/// of nodes `0 .. bound` are the edges into `v`.
proof fn lemma_in_count_by_lists(edges: Seq<EdgeSlot>, bound: nat, v: u32)
    requires
        within(edges, bound),
        bound <= u32::MAX,
    ensures
        in_count(edges, v) == occurrences_below(edges, bound, v),
    decreases edges.len(),
{
    if edges.len() == 0 {
        lemma_occurrences_empty(edges, bound, v);
    } else {
        let rest = edges.drop_last();
        assert forall|i: int| 0 <= i < rest.len() implies match #[trigger] rest[i] {
            Some((a, b)) => a < bound && b < bound,
            None => true,
        } by {
            assert(rest[i] == edges[i]);
        }
        lemma_in_count_by_lists(rest, bound, v);
        assert(rest.push(edges.last()) =~= edges);
        lemma_occurrences_push(rest, edges.last(), bound, v);
        assert(edges[edges.len() - 1] == edges.last());
    }
}

proof fn lemma_occurrences_empty(edges: Seq<EdgeSlot>, k: nat, v: u32)
    requires
        edges.len() == 0,
    ensures
        occurrences_below(edges, k, v) == 0,
    decreases k,
{
    if k > 0 {
        lemma_occurrences_empty(edges, (k - 1) as nat, v);
    }
}

proof fn lemma_reversed_count(edges: Seq<EdgeSlot>, v: u32)
    ensures
        out_targets(reversed(edges), v).len() == in_count(edges, v),
    decreases edges.len(),
{
    if edges.len() > 0 {
        lemma_reversed_count(edges.drop_last(), v);
        assert(reversed(edges).drop_last() =~= reversed(edges.drop_last()));
    }
}

proof fn lemma_fresh_accepts(p: Seq<u32>, bound: nat, k: nat)
    requires
        2 * k <= p.len(),
        forall|i: int| 0 <= i < p.len() ==> (#[trigger] p[i]) < bound,
        bound <= u32::MAX,
    ensures
        accepted_pairs(TopologyView::empty().with_nodes(bound), p, k) == as_slots(p).take(k as int),
    decreases k,
{
    crate::laws::lemma_fresh_nodes_live(bound);
    if k == 0 {
        assert(as_slots(p).take(0) =~= Seq::<EdgeSlot>::empty());
    } else {
        lemma_fresh_accepts(p, bound, (k - 1) as nat);
        let i = k - 1;
        assert(p[2 * i] < bound && p[2 * i + 1] < bound);
        assert(as_slots(p).take(k as int) =~= as_slots(p).take(k - 1).push(as_slots(p)[k - 1]));
    }
}

proof fn lemma_grouped_within(edges: Seq<EdgeSlot>, bound: nat, k: nat)
    requires
        within(edges, bound),
        k <= bound,
        bound <= u32::MAX,
    ensures
        forall|i: int| 0 <= i < grouped(edges, k).len() ==> (#[trigger] grouped(edges, k)[i]) < bound,
    decreases k,
{
    if k > 0 {
        lemma_grouped_within(edges, bound, (k - 1) as nat);
        let s = (k - 1) as u32;
        lemma_targets_within(edges, bound, s);
        lemma_interleave_within(s, out_targets(edges, s), bound);
        let a = grouped(edges, (k - 1) as nat);
        let b = interleave(s, out_targets(edges, s));
        assert forall|i: int| 0 <= i < (a + b).len() implies #[trigger] (a + b)[i] < bound by {
            if i < a.len() {
                assert((a + b)[i] == a[i]);
            } else {
                assert((a + b)[i] == b[i - a.len()]);
            }
        }
    }
}

proof fn lemma_targets_within(edges: Seq<EdgeSlot>, bound: nat, s: u32)
    requires
        within(edges, bound),
    ensures
        forall|j: int| 0 <= j < out_targets(edges, s).len() ==> (#[trigger] out_targets(edges, s)[j])
            < bound,
    decreases edges.len(),
{
    if edges.len() > 0 {
        let rest = edges.drop_last();
        assert forall|i: int| 0 <= i < rest.len() implies match #[trigger] rest[i] {
            Some((a, b)) => a < bound && b < bound,
            None => true,
        } by {
            assert(rest[i] == edges[i]);
        }
        lemma_targets_within(rest, bound, s);
        assert(edges[edges.len() - 1] == edges.last());
        let a = out_targets(rest, s);
        let b = out_targets(edges, s);
        assert forall|j: int| 0 <= j < b.len() implies #[trigger] b[j] < bound by {
            if j < a.len() {
                assert(b[j] == a[j]);
            }
        }
    }
}

proof fn lemma_interleave_within(s: u32, ts: Seq<u32>, bound: nat)
    requires
        s < bound,
        forall|j: int| 0 <= j < ts.len() ==> (#[trigger] ts[j]) < bound,
    ensures
        forall|i: int| 0 <= i < interleave(s, ts).len() ==> (#[trigger] interleave(s, ts)[i]) < bound,
    decreases ts.len(),
{
    if ts.len() > 0 {
        let rest = ts.drop_last();
        assert forall|j: int| 0 <= j < rest.len() implies (#[trigger] rest[j]) < bound by {
            assert(rest[j] == ts[j]);
        }
        lemma_interleave_within(s, rest, bound);
        let a = interleave(s, rest);
        let b = seq![s, ts.last()];
        assert forall|i: int| 0 <= i < (a + b).len() implies #[trigger] (a + b)[i] < bound by {
            if i < a.len() {
                assert((a + b)[i] == a[i]);
            } else {
                assert((a + b)[i] == b[i - a.len()]);
            }
        }
    }
}

/// Reading a topology's outgoing export back into `[source, target, ...]`
/// pairs and adding them to a new topology with `node_bound` nodes accepts
/// every pair, and rebuilds the same edges up to their ids: each node has the
/// same targets in the same order, so the same export and the same degrees.
pub proof fn law_export_round_trip(v: TopologyView)
    requires
        v.edges_closed(),
        v.node_bound() <= u32::MAX,
        v.edges.len() <= u32::MAX,
    ensures
        ({
            let pairs = edge_pairs_of(csr(v.edges, v.node_bound()), v.node_bound());
            let fresh = TopologyView::empty().with_nodes(v.node_bound());
            let rebuilt = accepted_pairs(fresh, pairs, pairs.len() / 2);
            &&& rebuilt.len() == pairs.len() / 2
            &&& rebuilt.len() == v.edge_count()
            &&& forall|s: u32| (s as nat) < v.node_bound() ==> #[trigger] out_targets(rebuilt, s) == out_targets(v.edges, s)
            &&& csr(rebuilt, v.node_bound()) == csr(v.edges, v.node_bound())
            &&& node_degrees(rebuilt, v.node_bound()) == node_degrees(v.edges, v.node_bound())
        }),
{
    let bound = v.node_bound();
    let e = v.edges;
    assert(within(e, bound)) by {
        assert forall|i: int| 0 <= i < e.len() implies match #[trigger] e[i] {
            Some((a, b)) => a < bound && b < bound,
            None => true,
        } by {
            if e[i] is Some {
                assert(v.is_live(crate::topology::source_of(e[i])));
            }
        }
    }
    lemma_export_pairs(e, bound);
    let pairs = grouped(e, bound);
    lemma_grouped_lists(e, bound, 0);
    lemma_grouped_within(e, bound, bound);
    lemma_fresh_accepts(pairs, bound, pairs.len() / 2);
    let rebuilt = accepted_pairs(TopologyView::empty().with_nodes(bound), pairs, pairs.len() / 2);
    assert(rebuilt =~= as_slots(pairs));
    assert forall|s: u32| (s as nat) < bound implies #[trigger] out_targets(rebuilt, s) == out_targets(e, s) by {
        lemma_grouped_lists(e, bound, s);
    }
    assert forall|k: nat| k <= bound implies #[trigger] csr_targets(rebuilt, k) == csr_targets(e, k) by {
        lemma_same_rows(rebuilt, e, k, bound);
    }
    assert(csr_offsets(rebuilt, bound) =~= csr_offsets(e, bound)) by {
        assert forall|i: int| 0 <= i < bound + 1 implies csr_offsets(rebuilt, bound)[i] == csr_offsets(e, bound)[i] by {
            assert(csr_targets(rebuilt, i as nat) == csr_targets(e, i as nat));
        }
    }
    assert forall|i: int| 0 <= i < 2 * bound implies node_degrees(rebuilt, bound)[i] == node_degrees(e, bound)[i] by {
        let s = (i / 2) as u32;
        lemma_grouped_lists(e, bound, s);
        lemma_reversed_count(rebuilt, s);
        lemma_reversed_count(e, s);
        lemma_in_count_by_lists(e, bound, s);
    }
    assert(node_degrees(rebuilt, bound) =~= node_degrees(e, bound));
    crate::csr::lemma_csr_targets_len(e, bound);
    lemma_grouped_len(e, bound);
    lemma_live_edges_listed(e, bound);
}

proof fn lemma_same_rows(a: Seq<EdgeSlot>, b: Seq<EdgeSlot>, k: nat, bound: nat)
    requires
        k <= bound,
        forall|s: u32| (s as nat) < bound ==> #[trigger] out_targets(a, s) == out_targets(b, s),
    ensures
        csr_targets(a, k) == csr_targets(b, k),
    decreases k,
{
    if k > 0 {
        lemma_same_rows(a, b, (k - 1) as nat, bound);
        assert(out_targets(a, (k - 1) as u32) == out_targets(b, (k - 1) as u32));
    }
}

/// With every source below `bound`, the lists of nodes `0 .. bound` hold one
/// entry per live edge.
proof fn lemma_live_edges_listed(edges: Seq<EdgeSlot>, bound: nat)
    requires
        within(edges, bound),
        bound <= u32::MAX,
    ensures
        csr_targets(edges, bound).len() == crate::counting::count_where(
            edges,
            |e: EdgeSlot| crate::topology::is_live_edge(e),
        ),
    decreases edges.len(),
{
    crate::csr::lemma_csr_targets_len(edges, bound);
    lemma_below_all(edges, bound);
}

proof fn lemma_below_all(edges: Seq<EdgeSlot>, bound: nat)
    requires
        within(edges, bound),
    ensures
        crate::csr::n_below(edges, bound) == crate::counting::count_where(
            edges,
            |e: EdgeSlot| crate::topology::is_live_edge(e),
        ),
    decreases edges.len(),
{
    if edges.len() > 0 {
        let rest = edges.drop_last();
        assert forall|i: int| 0 <= i < rest.len() implies match #[trigger] rest[i] {
            Some((a, b)) => a < bound && b < bound,
            None => true,
        } by {
            assert(rest[i] == edges[i]);
        }
        lemma_below_all(rest, bound);
        assert(edges[edges.len() - 1] == edges.last());
    }
}

/// A view whose live edges join live nodes keeps its edges inside the slot range.
pub proof fn lemma_closed_within(v: TopologyView)
    requires
        v.edges_closed(),
    ensures
        within(v.edges, v.node_bound()),
{
    assert forall|i: int| 0 <= i < v.edges.len() implies match #[trigger] v.edges[i] {
        Some((a, b)) => a < v.node_bound() && b < v.node_bound(),
        None => true,
    } by {
        if v.edges[i] is Some {
            assert(v.is_live(crate::topology::source_of(v.edges[i])));
            assert(v.is_live(crate::topology::target_of(v.edges[i])));
        }
    }
}

proof fn lemma_reversed_within(edges: Seq<EdgeSlot>, bound: nat)
    requires
        within(edges, bound),
    ensures
        within(reversed(edges), bound),
        crate::counting::count_where(reversed(edges), |e: EdgeSlot| crate::topology::is_live_edge(e))
            == crate::counting::count_where(edges, |e: EdgeSlot| crate::topology::is_live_edge(e)),
    decreases edges.len(),
{
    let r = reversed(edges);
    assert forall|i: int| 0 <= i < r.len() implies match #[trigger] r[i] {
        Some((a, b)) => a < bound && b < bound,
        None => true,
    } by {
        assert(r[i] == crate::csr::flip(edges[i]));
    }
    if edges.len() > 0 {
        let rest = edges.drop_last();
        assert forall|i: int| 0 <= i < rest.len() implies match #[trigger] rest[i] {
            Some((a, b)) => a < bound && b < bound,
            None => true,
        } by {
            assert(rest[i] == edges[i]);
        }
        lemma_reversed_within(rest, bound);
        assert(r.drop_last() =~= reversed(rest));
    }
}

/// An export over a slot range that holds every live edge has one target
/// (or source) entry per live edge, after the `bound + 1` offsets.
pub proof fn lemma_export_len(edges: Seq<EdgeSlot>, bound: nat, reverse: bool)
    requires
        within(edges, bound),
        bound <= u32::MAX,
    ensures
        csr(crate::csr::oriented(edges, reverse), bound).len() == bound + 1
            + crate::counting::count_where(edges, |e: EdgeSlot| crate::topology::is_live_edge(e)),
{
    lemma_reversed_within(edges, bound);
    let es = crate::csr::oriented(edges, reverse);
    lemma_live_edges_listed(es, bound);
}

} // verus!

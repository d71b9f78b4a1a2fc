//! The compressed adjacency export: `node_bound + 1` offsets (prefix sums of
//! per-node degree) followed by one neighbour per edge, grouped by node.
use vstd::prelude::*;

use crate::topology::{source_of, EdgeSlot};

verus! {

/// Targets of the live edges of `edges` whose source is `s`, in slot order.
pub open spec fn out_targets(edges: Seq<EdgeSlot>, s: u32) -> Seq<u32>
    decreases edges.len(),
{
    if edges.len() == 0 {
        Seq::empty()
    } else {
        out_targets(edges.drop_last(), s) + match edges.last() {
            Some((a, b)) => if a == s {
                seq![b]
            } else {
                Seq::empty()
            },
            None => Seq::empty(),
        }
    }
}

/// Every edge turned around.
pub open spec fn reversed(edges: Seq<EdgeSlot>) -> Seq<EdgeSlot> {
    edges.map_values(|e: EdgeSlot| flip(e))
}

pub open spec fn flip(e: EdgeSlot) -> EdgeSlot {
    match e {
        Some((a, b)) => Some((b, a)),
        None => None,
    }
}

/// `edges`, or `edges` turned around.
pub open spec fn oriented(edges: Seq<EdgeSlot>, reverse: bool) -> Seq<EdgeSlot> {
    if reverse {
        reversed(edges)
    } else {
        edges
    }
}

/// The neighbour lists of nodes `0 .. k`, one after another.
pub open spec fn csr_targets(edges: Seq<EdgeSlot>, k: nat) -> Seq<u32>
    decreases k,
{
    if k == 0 {
        Seq::empty()
    } else {
        csr_targets(edges, (k - 1) as nat) + out_targets(edges, (k - 1) as u32)
    }
}

/// The offsets: entry `i` is where node `i`'s neighbour list starts.
pub open spec fn csr_offsets(edges: Seq<EdgeSlot>, bound: nat) -> Seq<u32> {
    Seq::new(bound + 1, |i: int| csr_targets(edges, i as nat).len() as u32)
}

/// The whole export over node slots `0 .. bound`.
pub open spec fn csr(edges: Seq<EdgeSlot>, bound: nat) -> Seq<u32> {
    csr_offsets(edges, bound) + csr_targets(edges, bound)
}

/// Number of live edges whose source is below `k`.
pub open spec fn n_below(edges: Seq<EdgeSlot>, k: nat) -> nat
    decreases edges.len(),
{
    if edges.len() == 0 {
        0
    } else {
        n_below(edges.drop_last(), k) + match edges.last() {
            Some((a, _)) => if a < k {
                1nat
            } else {
                0nat
            },
            None => 0nat,
        }
    }
}

pub proof fn lemma_out_targets_step(edges: Seq<EdgeSlot>, j: int, s: u32)
    requires
        0 <= j < edges.len(),
    ensures
        out_targets(edges.take(j + 1), s) == out_targets(edges.take(j), s) + match edges[j] {
            Some((a, b)) => if a == s {
                seq![b]
            } else {
                Seq::<u32>::empty()
            },
            None => Seq::<u32>::empty(),
        },
{
    assert(edges.take(j + 1).drop_last() =~= edges.take(j));
}

pub proof fn lemma_out_targets_len(edges: Seq<EdgeSlot>, s: u32)
    ensures
        out_targets(edges, s).len() <= edges.len(),
    decreases edges.len(),
{
    if edges.len() > 0 {
        lemma_out_targets_len(edges.drop_last(), s);
    }
}

proof fn lemma_n_below_split(edges: Seq<EdgeSlot>, s: u32)
    ensures
        n_below(edges, s as nat) + out_targets(edges, s).len() == n_below(edges, s as nat + 1),
    decreases edges.len(),
{
    if edges.len() > 0 {
        lemma_n_below_split(edges.drop_last(), s);
    }
}

proof fn lemma_n_below_bound(edges: Seq<EdgeSlot>, k: nat)
    ensures
        n_below(edges, k) <= edges.len(),
    decreases edges.len(),
{
    if edges.len() > 0 {
        lemma_n_below_bound(edges.drop_last(), k);
    }
}

/// The neighbour lists of nodes below `k` hold one entry per live edge with
/// its source below `k`, so never more entries than there are edge slots.
pub proof fn lemma_csr_targets_len(edges: Seq<EdgeSlot>, k: nat)
    requires
        k <= u32::MAX + 1,
    ensures
        csr_targets(edges, k).len() == n_below(edges, k),
        csr_targets(edges, k).len() <= edges.len(),
    decreases k,
{
    if k > 0 {
        lemma_csr_targets_len(edges, (k - 1) as nat);
        lemma_n_below_split(edges, (k - 1) as u32);
    } else {
        lemma_n_below_zero(edges);
    }
    lemma_n_below_bound(edges, k);
}

proof fn lemma_n_below_zero(edges: Seq<EdgeSlot>)
    ensures
        n_below(edges, 0) == 0,
    decreases edges.len(),
{
    if edges.len() > 0 {
        lemma_n_below_zero(edges.drop_last());
    }
}

/// Per node slot `v`, the entries `2v` and `2v + 1`: the lengths of `v`'s
/// lists in `out_es` and `in_es`.
pub open spec fn degree_table(out_es: Seq<EdgeSlot>, in_es: Seq<EdgeSlot>, bound: nat) -> Seq<
    u32,
> {
    Seq::new(
        2 * bound,
        |i: int|
            if i % 2 == 0 {
                out_targets(out_es, (i / 2) as u32).len() as u32
            } else {
                out_targets(in_es, (i / 2) as u32).len() as u32
            },
    )
}

/// `[out_0, in_0, out_1, in_1, ...]` over node slots `0 .. bound`.
pub open spec fn node_degrees(edges: Seq<EdgeSlot>, bound: nat) -> Seq<u32> {
    degree_table(edges, reversed(edges), bound)
}

/// `[src, targets[start], src, targets[start + 1], ...]` up to `stop`.
pub open spec fn row_pairs(targets: Seq<u32>, src: u32, start: int, stop: int) -> Seq<u32>
    decreases stop - start,
{
    if stop <= start {
        Seq::empty()
    } else {
        row_pairs(targets, src, start, stop - 1) + seq![src, targets[stop - 1]]
    }
}

pub open spec fn min_int(a: int, b: int) -> int {
    if a <= b {
        a
    } else {
        b
    }
}

/// The flat `[source, target, ...]` pairs of rows `0 .. k` of an export
/// `offsets ++ targets`; a row's range is cut at the end of `targets`.
pub open spec fn pairs_of_rows(offsets: Seq<u32>, targets: Seq<u32>, k: nat) -> Seq<u32>
    decreases k,
{
    if k == 0 {
        Seq::empty()
    } else {
        let src = (k - 1) as int;
        pairs_of_rows(offsets, targets, (k - 1) as nat) + row_pairs(
            targets,
            src as u32,
            offsets[src] as int,
            min_int(offsets[src + 1] as int, targets.len() as int),
        )
    }
}

/// What `csr_edge_pairs` returns for `data` over `node_bound` slots.
pub open spec fn edge_pairs_of(data: Seq<u32>, node_bound: nat) -> Seq<u32> {
    if data.len() <= node_bound + 1 {
        Seq::empty()
    } else {
        pairs_of_rows(
            data.take(node_bound + 1 as int),
            data.skip(node_bound + 1 as int),
            node_bound,
        )
    }
}

/// Turns a compressed adjacency export over `node_bound` slots back into flat
/// `[source, target, ...]` pairs, row by row. An export with no targets gives
/// no pairs; a row that runs past the targets is cut short.
pub fn csr_edge_pairs(data: &[u32], node_bound: usize) -> (r: Vec<u32>)
    requires
        node_bound <= u32::MAX,
    ensures
        r@ == edge_pairs_of(data@, node_bound as nat),
{
    let mut r: Vec<u32> = Vec::new();
    let total = data.len();
    if total == 0 || total - 1 <= node_bound {
        return r;
    }
    let ghost offsets = data@.take(node_bound + 1 as int);
    let ghost targets = data@.skip(node_bound + 1 as int);
    let base = node_bound + 1;
    let len = total - base;
    let mut src: usize = 0;
    while src < node_bound
        invariant
            src <= node_bound,
            node_bound <= u32::MAX,
            base == node_bound + 1,
            data@.len() == base + len,
            total == data@.len(),
            offsets == data@.take(base as int),
            targets == data@.skip(base as int),
            r@ == pairs_of_rows(offsets, targets, src as nat),
        decreases node_bound - src,
    {
        let start = data[src] as usize;
        let end = data[src + 1] as usize;
        let stop = if end < len {
            end
        } else {
            len
        };
        let ghost prefix = r@;
        let mut k = start;
        while k < stop
            invariant
                start < stop ==> k <= stop,
                start >= stop ==> k == start,
                stop <= len,
                src < node_bound,
                node_bound <= u32::MAX,
                data@.len() == base + len,
                total == data@.len(),
                targets == data@.skip(base as int),
                r@ == prefix + row_pairs(targets, src as u32, start as int, k as int),
                k >= start,
            decreases stop - k,
        {
            r.push(src as u32);
            r.push(data[base + k]);
            assert(row_pairs(targets, src as u32, start as int, k + 1) == row_pairs(
                targets,
                src as u32,
                start as int,
                k as int,
            ) + seq![src as u32, targets[k as int]]);
            assert(r@ =~= prefix + row_pairs(targets, src as u32, start as int, k + 1));
            k = k + 1;
        }
        proof {
            if stop > start {
                assert(k == stop);
            } else {
                assert(row_pairs(targets, src as u32, start as int, k as int) =~= Seq::empty());
                assert(row_pairs(targets, src as u32, start as int, stop as int) =~= Seq::empty());
            }
        }
        assert(offsets[src as int] == data@[src as int]);
        assert(offsets[src + 1] == data@[src + 1]);
        assert(r@ =~= pairs_of_rows(offsets, targets, src as nat + 1));
        src = src + 1;
    }
    r
}

} // verus!

//! Graph topology: a slot arena of nodes and edges with stable identifiers.
//!
//! A node's slot is its identifier: identifiers are handed out in order from
//! zero and never reused until `clear`, so slot space only grows and removed
//! nodes leave inert holes. Edges live in an arena of their own, likewise
//! indexed by their identifier.
use vstd::prelude::*;

use crate::counting::{count_where, lemma_count_bound, lemma_count_push, lemma_count_update};
use crate::csr::{
    csr, csr_offsets, csr_targets, lemma_csr_targets_len, lemma_out_targets_len,
    lemma_out_targets_step, node_degrees, degree_table, oriented, out_targets, reversed,
};
use crate::edge::EdgeId;
use crate::node::{NodeId, NodeState};

verus! {

/// An edge slot: `Some((source, target))` while the edge is live.
pub type EdgeSlot = Option<(u32, u32)>;

/// The abstract state of a topology.
pub ghost struct TopologyView {
    /// Per node slot: whether the node is live.
    pub live: Seq<bool>,
    /// Per node slot: whether the node is pinned.
    pub pinned: Seq<bool>,
    /// Per edge slot: its endpoints while it is live.
    pub edges: Seq<EdgeSlot>,
}

pub open spec fn is_true(b: bool) -> bool {
    b
}

pub open spec fn source_of(e: EdgeSlot) -> u32 {
    match e {
        Some((a, _)) => a,
        None => 0,
    }
}

pub open spec fn target_of(e: EdgeSlot) -> u32 {
    match e {
        Some((_, b)) => b,
        None => 0,
    }
}

pub open spec fn is_live_edge(e: EdgeSlot) -> bool {
    e is Some
}

/// `e` with the edge dropped if it touches node `id`.
pub open spec fn scrub(e: EdgeSlot, id: u32) -> EdgeSlot {
    match e {
        Some((a, b)) => if a == id || b == id {
            None
        } else {
            e
        },
        None => None,
    }
}

/// The edges that adding the first `k` pairs of `pairs` to `v` creates: one
/// per pair whose two ends are live in `v`.
pub open spec fn accepted_pairs(v: TopologyView, pairs: Seq<u32>, k: nat) -> Seq<EdgeSlot>
    decreases k,
{
    if k == 0 {
        Seq::empty()
    } else {
        let s = pairs[2 * (k - 1)];
        let t = pairs[2 * (k - 1) + 1];
        accepted_pairs(v, pairs, (k - 1) as nat) + if v.is_live(s) && v.is_live(t) {
            seq![Some((s, t))]
        } else {
            Seq::empty()
        }
    }
}

impl TopologyView {
    pub open spec fn empty() -> TopologyView {
        TopologyView { live: Seq::empty(), pinned: Seq::empty(), edges: Seq::empty() }
    }

    /// The view after adding one node.
    pub open spec fn with_node(self) -> TopologyView {
        TopologyView { live: self.live.push(true), pinned: self.pinned.push(false), ..self }
    }

    /// The view after adding `k` nodes.
    pub open spec fn with_nodes(self, k: nat) -> TopologyView
        decreases k,
    {
        if k == 0 {
            self
        } else {
            self.with_nodes((k - 1) as nat).with_node()
        }
    }

    /// The view after removing live node `id` and every edge touching it.
    pub open spec fn without_node(self, id: u32) -> TopologyView {
        TopologyView {
            live: self.live.update(id as int, false),
            pinned: self.pinned.update(id as int, false),
            edges: self.edges.map_values(|e: EdgeSlot| scrub(e, id)),
        }
    }

    /// One past the highest node slot ever used.
    pub open spec fn node_bound(self) -> nat {
        self.live.len()
    }

    pub open spec fn node_count(self) -> nat {
        count_where(self.live, |b: bool| is_true(b))
    }

    pub open spec fn edge_count(self) -> nat {
        count_where(self.edges, |e: EdgeSlot| is_live_edge(e))
    }

    pub open spec fn is_live(self, id: u32) -> bool {
        id < self.live.len() && self.live[id as int]
    }

    /// Every live edge joins two live nodes.
    pub open spec fn edges_closed(self) -> bool {
        forall|i: int|
            0 <= i < self.edges.len() && (#[trigger] self.edges[i]) is Some ==> self.is_live(
                source_of(self.edges[i]),
            ) && self.is_live(target_of(self.edges[i]))
    }
}

/// Node and edge topology with stable identifiers.
pub struct GraphTopology {
    live: Vec<bool>,
    states: Vec<NodeState>,
    edges: Vec<EdgeSlot>,
    live_nodes: u32,
    live_edges: u32,
}

impl View for GraphTopology {
    type V = TopologyView;

    closed spec fn view(&self) -> TopologyView {
        TopologyView {
            live: self.live@,
            pinned: self.states@.map_values(|s: NodeState| s.pinned()),
            edges: self.edges@,
        }
    }
}

impl GraphTopology {
    /// The internal invariant: counters agree with the arenas, identifiers fit
    /// in 32 bits, and live edges join live nodes.
    pub closed spec fn well_formed(&self) -> bool {
        &&& self.states@.len() == self.live@.len()
        &&& self.live@.len() <= u32::MAX
        &&& self.edges@.len() <= u32::MAX
        &&& self.live_nodes == self@.node_count()
        &&& self.live_edges == self@.edge_count()
        &&& self@.edges_closed()
    }

    /// In a well-formed topology every live edge joins two live nodes.
    pub proof fn lemma_edges_closed(&self)
        requires
            self.well_formed(),
        ensures
            self@.edges_closed(),
            self@.node_bound() <= u32::MAX,
            self@.edges.len() <= u32::MAX,
    {
    }

    /// An empty topology.
    pub fn new() -> (r: GraphTopology)
        ensures
            r.well_formed(),
            r@ == TopologyView::empty(),
    {
        let r = GraphTopology {
            live: Vec::new(),
            states: Vec::new(),
            edges: Vec::new(),
            live_nodes: 0,
            live_edges: 0,
        };
        assert(r@.pinned =~= Seq::empty());
        r
    }

    /// Number of live nodes.
    pub fn node_count(&self) -> (r: u32)
        requires
            self.well_formed(),
        ensures
            r == self@.node_count(),
    {
        self.live_nodes
    }

    /// One past the highest node slot ever used; removed nodes leave holes.
    pub fn node_bound(&self) -> (r: u32)
        requires
            self.well_formed(),
        ensures
            r == self@.node_bound(),
    {
        self.live.len() as u32
    }

    /// Number of live edges.
    pub fn edge_count(&self) -> (r: u32)
        requires
            self.well_formed(),
        ensures
            r == self@.edge_count(),
    {
        self.live_edges
    }

    /// One past the highest edge identifier ever handed out.
    pub fn edge_bound(&self) -> (r: u32)
        requires
            self.well_formed(),
        ensures
            r == self@.edges.len(),
    {
        self.edges.len() as u32
    }

    /// Whether `id` names a live node.
    pub fn contains_node(&self, id: NodeId) -> (r: bool)
        requires
            self.well_formed(),
        ensures
            r == self@.is_live(id.0),
    {
        let i = id.0 as usize;
        i < self.live.len() && self.live[i]
    }

    /// Adds a node; its identifier is the next unused slot.
    pub fn add_node(&mut self) -> (r: NodeId)
        requires
            old(self).well_formed(),
            old(self)@.node_bound() < u32::MAX,
        ensures
            final(self).well_formed(),
            r.0 == old(self)@.node_bound(),
            final(self)@ == old(self)@.with_node(),
            final(self)@.node_count() == old(self)@.node_count() + 1,
    {
        let id = self.live.len() as u32;
        proof {
            lemma_count_push(self.live@, true, |b: bool| is_true(b));
            lemma_count_bound(self.live@, |b: bool| is_true(b));
        }
        self.live.push(true);
        self.states.push(NodeState::new());
        self.live_nodes = self.live_nodes + 1;
        assert(self@.pinned =~= old(self)@.pinned.push(false));
        assert(self@.edges_closed()) by {
            assert forall|i: int|
                0 <= i < self@.edges.len() && (#[trigger] self@.edges[i]) is Some implies self@.is_live(
                source_of(self@.edges[i]),
            ) && self@.is_live(target_of(self@.edges[i])) by {
                assert(old(self)@.edges[i] == self@.edges[i]);
            }
        }
        NodeId(id)
    }

    /// Adds a directed edge between two live nodes; `None` if either is not live.
    pub fn add_edge(&mut self, source: NodeId, target: NodeId) -> (r: Option<EdgeId>)
        requires
            old(self).well_formed(),
            old(self)@.edges.len() < u32::MAX,
        ensures
            final(self).well_formed(),
            r is Some <==> old(self)@.is_live(source.0) && old(self)@.is_live(target.0),
            r is Some ==> r.unwrap().raw_spec() == old(self)@.edges.len() && final(self)@ == (TopologyView {
                edges: old(self)@.edges.push(Some((source.0, target.0))),
                ..old(self)@
            }),
            r is None ==> final(self)@ == old(self)@,
    {
        if !self.contains_node(source) || !self.contains_node(target) {
            return None;
        }
        let id = self.edges.len() as u32;
        proof {
            lemma_count_push(self.edges@, Some((source.0, target.0)), |e: EdgeSlot| is_live_edge(e));
            lemma_count_bound(self.edges@, |e: EdgeSlot| is_live_edge(e));
        }
        self.edges.push(Some((source.0, target.0)));
        self.live_edges = self.live_edges + 1;
        assert(self@.edges_closed()) by {
            assert forall|i: int|
                0 <= i < self@.edges.len() && (#[trigger] self@.edges[i]) is Some implies self@.is_live(
                source_of(self@.edges[i]),
            ) && self@.is_live(target_of(self@.edges[i])) by {
                if i < old(self)@.edges.len() {
                    assert(old(self)@.edges[i] == self@.edges[i]);
                }
            }
        }
        Some(EdgeId(id))
    }

    /// Removes a live edge; `false` if `id` names none.
    pub fn remove_edge(&mut self, id: EdgeId) -> (r: bool)
        requires
            old(self).well_formed(),
        ensures
            final(self).well_formed(),
            r == (id.0 < old(self)@.edges.len() && old(self)@.edges[id.0 as int] is Some),
            r ==> final(self)@ == (TopologyView {
                edges: old(self)@.edges.update(id.0 as int, None),
                ..old(self)@
            }),
            r ==> final(self)@.edge_count() + 1 == old(self)@.edge_count(),
            !r ==> final(self)@ == old(self)@,
    {
        let i = id.0 as usize;
        if i >= self.edges.len() || self.edges[i].is_none() {
            return false;
        }
        proof {
            lemma_count_update(self.edges@, i as int, None, |e: EdgeSlot| is_live_edge(e));
        }
        self.edges.set(i, None);
        self.live_edges = self.live_edges - 1;
        assert(self@.edges_closed()) by {
            assert forall|k: int|
                0 <= k < self@.edges.len() && (#[trigger] self@.edges[k]) is Some implies self@.is_live(
                source_of(self@.edges[k]),
            ) && self@.is_live(target_of(self@.edges[k])) by {
                assert(old(self)@.edges[k] == self@.edges[k]);
            }
        }
        true
    }

    /// Removes a live node together with every edge that touches it, in either
    /// direction. Its slot stays allocated but inert. `false` if `id` names no
    /// live node.
    pub fn remove_node(&mut self, id: NodeId) -> (r: bool)
        requires
            old(self).well_formed(),
        ensures
            final(self).well_formed(),
            r == old(self)@.is_live(id.0),
            r ==> final(self)@ == old(self)@.without_node(id.0),
            r ==> final(self)@.node_count() + 1 == old(self)@.node_count(),
            !r ==> final(self)@ == old(self)@,
    {
        if !self.contains_node(id) {
            return false;
        }
        let ghost old_edges = self.edges@;
        let n = self.edges.len();
        let mut j: usize = 0;
        while j < n
            invariant
                self.well_formed(),
                self.live@ == old(self).live@,
                self.states@ == old(self).states@,
                self.live_nodes == old(self).live_nodes,
                old_edges == old(self).edges@,
                self.edges@.len() == n,
                n == old_edges.len(),
                j <= n,
                forall|k: int| 0 <= k < j ==> self.edges@[k] == scrub(old_edges[k], id.0),
                forall|k: int| j <= k < n ==> self.edges@[k] == old_edges[k],
            decreases n - j,
        {
            if let Some((a, b)) = self.edges[j] {
                if a == id.0 || b == id.0 {
                    proof {
                        lemma_count_update(self.edges@, j as int, None, |e: EdgeSlot| is_live_edge(e));
                    }
                    let ghost before = self@;
                    self.edges.set(j, None);
                    self.live_edges = self.live_edges - 1;
                    assert(self@.edges_closed()) by {
                        assert forall|k: int|
                            0 <= k < self@.edges.len() && (#[trigger] self@.edges[k]) is Some implies self@.is_live(
                            source_of(self@.edges[k]),
                        ) && self@.is_live(target_of(self@.edges[k])) by {
                            assert(before.edges[k] == self@.edges[k]);
                        }
                    }
                }
            }
            j = j + 1;
        }
        let i = id.0 as usize;
        proof {
            lemma_count_update(self.live@, i as int, false, |b: bool| is_true(b));
        }
        let ghost scrubbed = self@;
        self.live.set(i, false);
        self.states.set(i, NodeState::new());
        self.live_nodes = self.live_nodes - 1;
        assert(self@.edges =~= old_edges.map_values(|e: EdgeSlot| scrub(e, id.0)));
        assert(self@.pinned =~= old(self)@.pinned.update(id.0 as int, false));
        assert(self@.edges_closed()) by {
            assert forall|k: int|
                0 <= k < self@.edges.len() && (#[trigger] self@.edges[k]) is Some implies self@.is_live(
                source_of(self@.edges[k]),
            ) && self@.is_live(target_of(self@.edges[k])) by {
                assert(scrubbed.edges[k] == self@.edges[k]);
                assert(self@.edges[k] == scrub(old_edges[k], id.0));
            }
        }
        true
    }

    /// Sets the pinned flag of a live node; does nothing for an unknown id.
    pub fn set_pinned(&mut self, id: NodeId, pinned: bool)
        requires
            old(self).well_formed(),
        ensures
            final(self).well_formed(),
            final(self)@ == (TopologyView {
                pinned: if old(self)@.is_live(id.0) {
                    old(self)@.pinned.update(id.0 as int, pinned)
                } else {
                    old(self)@.pinned
                },
                ..old(self)@
            }),
    {
        if self.contains_node(id) {
            let i = id.0 as usize;
            let mut st = self.states[i];
            st.set_pinned(pinned);
            self.states.set(i, st);
            assert(self@.pinned =~= old(self)@.pinned.update(id.0 as int, pinned));
        }
    }

    /// Pins a live node (excludes it from simulation).
    pub fn pin_node(&mut self, id: NodeId)
        requires
            old(self).well_formed(),
        ensures
            final(self).well_formed(),
            final(self)@ == (TopologyView {
                pinned: if old(self)@.is_live(id.0) {
                    old(self)@.pinned.update(id.0 as int, true)
                } else {
                    old(self)@.pinned
                },
                ..old(self)@
            }),
    {
        self.set_pinned(id, true)
    }

    /// Unpins a live node.
    pub fn unpin_node(&mut self, id: NodeId)
        requires
            old(self).well_formed(),
        ensures
            final(self).well_formed(),
            final(self)@ == (TopologyView {
                pinned: if old(self)@.is_live(id.0) {
                    old(self)@.pinned.update(id.0 as int, false)
                } else {
                    old(self)@.pinned
                },
                ..old(self)@
            }),
    {
        self.set_pinned(id, false)
    }

    /// Whether `id` names a live, pinned node.
    pub fn is_node_pinned(&self, id: NodeId) -> (r: bool)
        requires
            self.well_formed(),
        ensures
            r == (self@.is_live(id.0) && self@.pinned[id.0 as int]),
    {
        if self.contains_node(id) {
            self.states[id.0 as usize].is_pinned()
        } else {
            false
        }
    }

    /// Removes every node and edge and restarts both identifier counters at zero.
    pub fn clear(&mut self)
        ensures
            final(self).well_formed(),
            final(self)@ == TopologyView::empty(),
    {
        *self = GraphTopology::new();
    }

    /// Targets of the outgoing edges of a live node, in edge order; empty for
    /// an unknown id.
    pub fn get_neighbors(&self, id: NodeId) -> (r: Vec<u32>)
        requires
            self.well_formed(),
        ensures
            r@ == if self@.is_live(id.0) {
                out_targets(self@.edges, id.0)
            } else {
                Seq::empty()
            },
    {
        let mut r: Vec<u32> = Vec::new();
        if !self.contains_node(id) {
            return r;
        }
        let n = self.edges.len();
        let mut j: usize = 0;
        while j < n
            invariant
                n == self.edges@.len(),
                j <= n,
                r@ == out_targets(self@.edges.take(j as int), id.0),
            decreases n - j,
        {
            proof {
                lemma_out_targets_step(self@.edges, j as int, id.0);
            }
            if let Some((a, b)) = self.edges[j] {
                if a == id.0 {
                    r.push(b);
                }
            }
            j = j + 1;
        }
        assert(self@.edges.take(n as int) =~= self@.edges);
        r
    }

    /// The compressed adjacency export over all node slots, outgoing edges
    /// (`reverse == false`) or incoming ones (`reverse == true`). Holes have
    /// degree zero and so an empty range.
    fn compressed(&self, reverse: bool) -> (r: Vec<u32>)
        requires
            self.well_formed(),
            self@.node_bound() + 1 + self@.edges.len() <= usize::MAX,
        ensures
            r@ == csr(oriented(self@.edges, reverse), self@.node_bound()),
    {
        let ghost es = oriented(self@.edges, reverse);
        let bound = self.live.len();
        let n = self.edges.len();
        let mut buckets: Vec<Vec<u32>> = Vec::new();
        let mut v: usize = 0;
        while v < bound
            invariant
                v <= bound,
                buckets@.len() == v,
                forall|u: int| 0 <= u < v ==> (#[trigger] buckets@[u])@ == Seq::<u32>::empty(),
            decreases bound - v,
        {
            buckets.push(Vec::new());
            v = v + 1;
        }
        proof {
            assert forall|u: int| 0 <= u < bound implies (#[trigger] buckets@[u])@ == out_targets(
                es.take(0),
                u as u32,
            ) by {
                assert(es.take(0) =~= Seq::<EdgeSlot>::empty());
            }
        }
        let mut j: usize = 0;
        while j < n
            invariant
                self.well_formed(),
                bound == self@.node_bound(),
                n == self@.edges.len(),
                es == oriented(self@.edges, reverse),
                j <= n,
                buckets@.len() == bound,
                forall|u: int| 0 <= u < bound ==> (#[trigger] buckets@[u])@ == out_targets(
                    es.take(j as int),
                    u as u32,
                ),
            decreases n - j,
        {
            proof {
                assert forall|u: int| 0 <= u < bound implies #[trigger] out_targets(
                    es.take(j + 1),
                    u as u32,
                ) == out_targets(es.take(j as int), u as u32) + match es[j as int] {
                    Some((a, b)) => if a == u as u32 {
                        seq![b]
                    } else {
                        Seq::<u32>::empty()
                    },
                    None => Seq::<u32>::empty(),
                } by {
                    lemma_out_targets_step(es, j as int, u as u32);
                }
            }
            if let Some((a, b)) = self.edges[j] {
                let (src, tgt) = if reverse {
                    (b, a)
                } else {
                    (a, b)
                };
                assert(es[j as int] == Some((src, tgt)));
                let ghost before = buckets@;
                buckets[src as usize].push(tgt);
                assert forall|u: int| 0 <= u < bound implies (#[trigger] buckets@[u])@ == out_targets(
                    es.take(j + 1),
                    u as u32,
                ) by {
                    if u != src as int {
                        assert(buckets@[u] == before[u]);
                    }
                }
            }
            j = j + 1;
        }
        assert(es.take(n as int) =~= es);
        let mut r: Vec<u32> = Vec::new();
        r.push(0);
        let mut total: usize = 0;
        v = 0;
        while v < bound
            invariant
                bound == self@.node_bound(),
                bound <= u32::MAX,
                es.len() == n,
                n <= u32::MAX,
                v <= bound,
                buckets@.len() == bound,
                forall|u: int| 0 <= u < bound ==> (#[trigger] buckets@[u])@ == out_targets(
                    es,
                    u as u32,
                ),
                total == csr_targets(es, v as nat).len(),
                r@ == Seq::new(v as nat + 1, |i: int| csr_targets(es, i as nat).len() as u32),
            decreases bound - v,
        {
            proof {
                lemma_csr_targets_len(es, v as nat + 1);
            }
            total = total + buckets[v].len();
            r.push(total as u32);
            assert(r@ =~= Seq::new(v as nat + 2, |i: int| csr_targets(es, i as nat).len() as u32));
            v = v + 1;
        }
        assert(r@ =~= csr_offsets(es, bound as nat));
        proof {
            lemma_csr_targets_len(es, bound as nat);
        }
        v = 0;
        while v < bound
            invariant
                bound == self@.node_bound(),
                bound <= u32::MAX,
                v <= bound,
                buckets@.len() == bound,
                forall|u: int| 0 <= u < bound ==> (#[trigger] buckets@[u])@ == out_targets(
                    es,
                    u as u32,
                ),
                r@ == csr_offsets(es, bound as nat) + csr_targets(es, v as nat),
                csr_targets(es, bound as nat).len() <= es.len(),
                es.len() == n,
                bound + 1 + n <= usize::MAX,
            decreases bound - v,
        {
            let ghost start = r@;
            let m = buckets[v].len();
            proof {
                lemma_csr_targets_len(es, v as nat + 1);
            }
            let mut k: usize = 0;
            while k < m
                invariant
                    v < bound,
                    buckets@.len() == bound,
                    m == buckets@[v as int]@.len(),
                    k <= m,
                    r@ == start + buckets@[v as int]@.take(k as int),
                    start.len() + m <= usize::MAX,
                decreases m - k,
            {
                r.push(buckets[v][k]);
                assert(buckets@[v as int]@.take(k + 1) =~= buckets@[v as int]@.take(k as int).push(
                    buckets@[v as int]@[k as int],
                ));
                k = k + 1;
            }
            assert(buckets@[v as int]@.take(m as int) =~= buckets@[v as int]@);
            assert(r@ =~= csr_offsets(es, bound as nat) + csr_targets(es, v as nat + 1));
            v = v + 1;
        }
        r
    }

    /// The compressed adjacency export of outgoing edges: `node_bound + 1`
    /// offsets, then the target of each edge grouped by source.
    pub fn get_edges_csr(&self) -> (r: Vec<u32>)
        requires
            self.well_formed(),
            self@.node_bound() + 1 + self@.edges.len() <= usize::MAX,
        ensures
            r@ == csr(self@.edges, self@.node_bound()),
            r@.len() == self@.node_bound() + 1 + self@.edge_count(),
    {
        proof {
            crate::round_trip::lemma_closed_within(self@);
            crate::round_trip::lemma_export_len(self@.edges, self@.node_bound(), false);
        }
        self.compressed(false)
    }

    /// The compressed adjacency export of incoming edges: `node_bound + 1`
    /// offsets, then the source of each edge grouped by target.
    pub fn get_inverse_edges_csr(&self) -> (r: Vec<u32>)
        requires
            self.well_formed(),
            self@.node_bound() + 1 + self@.edges.len() <= usize::MAX,
        ensures
            r@ == csr(reversed(self@.edges), self@.node_bound()),
            r@.len() == self@.node_bound() + 1 + self@.edge_count(),
    {
        proof {
            crate::round_trip::lemma_closed_within(self@);
            crate::round_trip::lemma_export_len(self@.edges, self@.node_bound(), true);
        }
        self.compressed(true)
    }

    /// Out- and in-degree of every node slot, interleaved:
    /// `[out_0, in_0, out_1, in_1, ...]`, `2 * node_bound` entries.
    pub fn get_node_degrees(&self) -> (r: Vec<u32>)
        requires
            self.well_formed(),
            2 * self@.node_bound() <= usize::MAX,
        ensures
            r@ == node_degrees(self@.edges, self@.node_bound()),
    {
        let ghost es = self@.edges;
        let ghost rs = reversed(es);
        let bound = self.live.len();
        let n = self.edges.len();
        let mut r: Vec<u32> = Vec::new();
        let len2 = 2 * bound;
        let mut i: usize = 0;
        while i < len2
            invariant
                len2 == 2 * bound,
                i <= 2 * bound,
                r@.len() == i,
                forall|k: int| 0 <= k < i ==> r@[k] == 0,
            decreases len2 - i,
        {
            r.push(0);
            i = i + 1;
        }
        assert(r@ =~= degree_table(es.take(0), rs.take(0), bound as nat)) by {
            assert(es.take(0) =~= Seq::<EdgeSlot>::empty());
            assert(rs.take(0) =~= Seq::<EdgeSlot>::empty());
        }
        let mut j: usize = 0;
        while j < n
            invariant
                self.well_formed(),
                es == self@.edges,
                rs == reversed(es),
                bound == self@.node_bound(),
                n == es.len(),
                j <= n,
                2 * bound <= usize::MAX,
                r@ == degree_table(es.take(j as int), rs.take(j as int), bound as nat),
            decreases n - j,
        {
            if let Some((a, b)) = self.edges[j] {
                assert(rs[j as int] == Some((b, a)));
                proof {
                    lemma_out_targets_len(es.take(j as int), a);
                    lemma_out_targets_len(rs.take(j as int), b);
                }
                let ia = 2 * (a as usize);
                let ib = 2 * (b as usize) + 1;
                assert(ia / 2 == a && ia % 2 == 0);
                assert(ib / 2 == b && ib % 2 == 1);
                let ca = r[ia];
                r.set(ia, ca + 1);
                let cb = r[ib];
                r.set(ib, cb + 1);
            }
            proof {
                assert forall|k: int| 0 <= k < 2 * bound implies #[trigger] r@[k] == degree_table(
                    es.take(j + 1),
                    rs.take(j + 1),
                    bound as nat,
                )[k] by {
                    lemma_out_targets_step(es, j as int, (k / 2) as u32);
                    lemma_out_targets_step(rs, j as int, (k / 2) as u32);
                }
                assert(r@ =~= degree_table(es.take(j + 1), rs.take(j + 1), bound as nat));
            }
            j = j + 1;
        }
        assert(es.take(n as int) =~= es);
        assert(rs.take(n as int) =~= rs);
        r
    }

    /// Adds an edge for each pair `[source, target]` of `pairs` (a trailing
    /// odd element is ignored) whose two ends are live; returns how many were added.
    pub fn add_edges_from_pairs(&mut self, pairs: &[u32]) -> (r: u32)
        requires
            old(self).well_formed(),
            old(self)@.edges.len() + pairs@.len() / 2 <= u32::MAX,
        ensures
            final(self).well_formed(),
            final(self)@ == (TopologyView {
                edges: old(self)@.edges + accepted_pairs(old(self)@, pairs@, pairs@.len() / 2),
                ..old(self)@
            }),
            r == accepted_pairs(old(self)@, pairs@, pairs@.len() / 2).len(),
    {
        let len = pairs.len();
        let count = len / 2;
        let mut added: u32 = 0;
        let mut i: usize = 0;
        assert(old(self)@.edges + accepted_pairs(old(self)@, pairs@, 0) =~= old(self)@.edges);
        while i < count
            invariant
                self.well_formed(),
                count == pairs@.len() / 2,
                i <= count,
                self@ == (TopologyView {
                    edges: old(self)@.edges + accepted_pairs(old(self)@, pairs@, i as nat),
                    ..old(self)@
                }),
                added == accepted_pairs(old(self)@, pairs@, i as nat).len(),
                added <= i,
                len == pairs@.len(),
                2 * count <= len,
                old(self)@.edges.len() + count <= u32::MAX,
            decreases count - i,
        {
            let source = pairs[2 * i];
            let target = pairs[2 * i + 1];
            let ghost before = self@;
            let e = self.add_edge(NodeId(source), NodeId(target));
            if e.is_some() {
                added = added + 1;
            }
            assert(self@.edges =~= old(self)@.edges + accepted_pairs(
                old(self)@,
                pairs@,
                i as nat + 1,
            ));
            i = i + 1;
        }
        added
    }
}

} // verus!

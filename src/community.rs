//! Community bookkeeping for multi-level modularity optimisation: dense
//! renumbering of community ids and the mapping of coarsened levels back to
//! the original nodes.
use std::collections::HashMap;
use vstd::prelude::*;

verus! {

broadcast use vstd::std_specs::hash::group_hash_axioms;

/// The distinct values of `s[0 .. k]`, in order of first appearance.
pub open spec fn first_seen(s: Seq<usize>, k: nat) -> Seq<usize>
    decreases k,
{
    if k == 0 {
        Seq::empty()
    } else {
        let d = first_seen(s, (k - 1) as nat);
        if d.contains(s[k - 1]) {
            d
        } else {
            d.push(s[k - 1])
        }
    }
}

/// `ids` renumbers `s` densely: entry `i` is the position of `s[i]` among
/// the distinct values of `s` in order of first appearance.
pub open spec fn renumbers(ids: Seq<usize>, s: Seq<usize>, count: nat) -> bool {
    let d = first_seen(s, s.len());
    &&& ids.len() == s.len()
    &&& count == d.len()
    &&& forall|i: int| 0 <= i < s.len() ==> #[trigger] ids[i] < count && d[ids[i] as int] == s[i]
}

pub proof fn lemma_first_seen_prefix(s: Seq<usize>, j: nat, k: nat)
    requires
        j <= k <= s.len(),
    ensures
        first_seen(s, j).len() <= first_seen(s, k).len(),
        forall|a: int| 0 <= a < first_seen(s, j).len() ==> #[trigger] first_seen(s, k)[a] == first_seen(
            s,
            j,
        )[a],
    decreases k - j,
{
    if j < k {
        lemma_first_seen_prefix(s, j, (k - 1) as nat);
    }
}

pub proof fn lemma_first_seen_distinct(s: Seq<usize>, k: nat)
    requires
        k <= s.len(),
    ensures
        first_seen(s, k).no_duplicates(),
        first_seen(s, k).len() <= k,
    decreases k,
{
    if k > 0 {
        lemma_first_seen_distinct(s, (k - 1) as nat);
    }
}

/// Renumbers community ids densely from 0 in order of first appearance;
/// returns the new ids and how many distinct communities there are.
pub fn compact_communities(community: &[usize]) -> (r: (Vec<usize>, usize))
    ensures
        renumbers(r.0@, community@, r.1 as nat),
{
    let ghost s = community@;
    let n = community.len();
    let mut id_map: HashMap<usize, usize> = HashMap::new();
    let mut ids: Vec<usize> = Vec::new();
    let mut next: usize = 0;
    let mut i: usize = 0;
    while i < n
        invariant
            s == community@,
            n == s.len(),
            i <= n,
            next == first_seen(s, i as nat).len(),
            next <= i,
            ids@.len() == i,
            forall|x: usize| #[trigger]
                id_map@.contains_key(x) <==> first_seen(s, i as nat).contains(x),
            forall|x: usize|
                #[trigger] id_map@.contains_key(x) ==> id_map@[x] < next && first_seen(
                    s,
                    i as nat,
                )[id_map@[x] as int] == x,
            forall|j: int|
                0 <= j < i ==> #[trigger] ids@[j] < next && first_seen(s, i as nat)[ids@[j] as int]
                    == s[j],
        decreases n - i,
    {
        proof {
            lemma_first_seen_prefix(s, i as nat, i as nat + 1);
            lemma_first_seen_distinct(s, i as nat);
        }
        let c = community[i];
        match id_map.get(&c) {
            Some(id) => {
                let id = *id;
                assert(first_seen(s, i as nat + 1) == first_seen(s, i as nat));
                ids.push(id);
            },
            None => {
                assert(!first_seen(s, i as nat).contains(c));
                id_map.insert(c, next);
                ids.push(next);
                next = next + 1;
                let ghost d0 = first_seen(s, i as nat);
                let ghost d1 = first_seen(s, i as nat + 1);
                assert(d1 == d0.push(c));
                assert forall|x: usize| #[trigger] id_map@.contains_key(x) <==> d1.contains(x) by {
                    if x == c {
                        assert(d1[next - 1] == c);
                    } else if d0.contains(x) {
                        let a = choose|a: int| 0 <= a < d0.len() && d0[a] == x;
                        assert(d1[a] == x);
                    } else if d1.contains(x) {
                        let a = choose|a: int| 0 <= a < d1.len() && d1[a] == x;
                        assert(a == next - 1);
                    }
                }
            },
        }
        i = i + 1;
    }
    proof {
        lemma_first_seen_distinct(s, n as nat);
    }
    (ids, next)
}

/// The levels as sequences.
pub open spec fn level_seqs(levels: Seq<Vec<usize>>) -> Seq<Seq<usize>> {
    levels.map_values(|l: Vec<usize>| l@)
}

/// The community of `node` after the first `k` levels.
pub open spec fn trace(levels: Seq<Seq<usize>>, k: nat, node: usize) -> usize
    decreases k,
{
    if k == 0 {
        node
    } else {
        let c = trace(levels, (k - 1) as nat, node);
        levels[k - 1][c as int]
    }
}

/// Following each of the nodes `0 .. n` through the levels stays in range.
pub open spec fn levels_chain(levels: Seq<Seq<usize>>, n: nat) -> bool {
    forall|node: usize, k: nat|
        node < n && k < levels.len() ==> (#[trigger] trace(levels, k, node)) < levels[k as int].len()
}

/// The community of each of the nodes `0 .. n` after all levels.
pub open spec fn traced(levels: Seq<Seq<usize>>, n: nat) -> Seq<usize> {
    Seq::new(n, |i: int| trace(levels, levels.len(), i as usize))
}

/// Whether every node below `node_count` can be followed through all levels.
pub fn levels_fit(levels: &[Vec<usize>], node_count: usize) -> (r: bool)
    ensures
        r == levels_chain(level_seqs(levels@), node_count as nat),
{
    let ghost ls = level_seqs(levels@);
    let mut node: usize = 0;
    while node < node_count
        invariant
            ls == level_seqs(levels@),
            node <= node_count,
            forall|x: usize, k: nat|
                x < node && k < ls.len() ==> (#[trigger] trace(ls, k, x)) < ls[k as int].len(),
        decreases node_count - node,
    {
        let mut comm = node;
        let mut k: usize = 0;
        while k < levels.len()
            invariant
                ls == level_seqs(levels@),
                node < node_count,
                k <= levels@.len(),
                comm == trace(ls, k as nat, node),
                forall|x: usize, j: nat|
                    x < node && j < ls.len() ==> (#[trigger] trace(ls, j, x)) < ls[j as int].len(),
                forall|j: nat| j < k ==> (#[trigger] trace(ls, j, node)) < ls[j as int].len(),
            decreases levels@.len() - k,
        {
            assert(levels@[k as int]@ == ls[k as int]);
            if comm >= levels[k].len() {
                assert(trace(ls, k as nat, node) >= ls[k as int].len());
                return false;
            }
            comm = levels[k][comm];
            k = k + 1;
        }
        assert forall|x: usize, j: nat|
            x < node + 1 && j < ls.len() implies (#[trigger] trace(ls, j, x)) < ls[j as int].len() by {
            if x == node {
                assert(trace(ls, j, node) < ls[j as int].len());
            }
        }
        node = node + 1;
    }
    true
}

/// Follows every node below `node_count` through all levels and renumbers
/// the communities it ends in densely, in order of first appearance.
pub fn map_levels_to_original(levels: &[Vec<usize>], node_count: usize) -> (r: Vec<u32>)
    requires
        levels_chain(level_seqs(levels@), node_count as nat),
        node_count <= u32::MAX,
    ensures
        renumbers(
            r@.map_values(|x: u32| x as usize),
            traced(level_seqs(levels@), node_count as nat),
            first_seen(
                traced(level_seqs(levels@), node_count as nat),
                node_count as nat,
            ).len(),
        ),
{
    let ghost ls = level_seqs(levels@);
    let mut ends: Vec<usize> = Vec::new();
    let mut node: usize = 0;
    while node < node_count
        invariant
            ls == level_seqs(levels@),
            levels_chain(ls, node_count as nat),
            node <= node_count,
            ends@.len() == node,
            forall|x: int| 0 <= x < node ==> #[trigger] ends@[x] == trace(ls, ls.len(), x as usize),
        decreases node_count - node,
    {
        let mut comm = node;
        let mut k: usize = 0;
        while k < levels.len()
            invariant
                ls == level_seqs(levels@),
                levels_chain(ls, node_count as nat),
                node < node_count,
                k <= levels@.len(),
                comm == trace(ls, k as nat, node),
            decreases levels@.len() - k,
        {
            assert(trace(ls, k as nat, node) < ls[k as int].len());
            assert(levels@[k as int]@ == ls[k as int]);
            comm = levels[k][comm];
            k = k + 1;
        }
        ends.push(comm);
        node = node + 1;
    }
    assert(ends@ =~= traced(ls, node_count as nat));
    let (ids, count) = compact_communities(&ends);
    proof {
        lemma_first_seen_distinct(ends@, node_count as nat);
    }
    let mut r: Vec<u32> = Vec::new();
    let mut i: usize = 0;
    while i < node_count
        invariant
            ids@.len() == node_count,
            renumbers(ids@, ends@, count as nat),
            count <= node_count,
            node_count <= u32::MAX,
            i <= node_count,
            r@.len() == i,
            forall|j: int| 0 <= j < i ==> (#[trigger] r@[j]) as usize == ids@[j],
        decreases node_count - i,
    {
        assert(ids@[i as int] < count);
        r.push(ids[i] as u32);
        i = i + 1;
    }
    assert(r@.map_values(|x: u32| x as usize) =~= ids@);
    r
}

/// Neighbour lists of node `v` built from the first `k` pairs of a flat
/// `[source, target, ...]` array, each pair counted in both directions with
/// weight 1; pairs with an end at or above `n` are skipped.
pub open spec fn undirected_list(pairs: Seq<u32>, n: nat, k: nat, v: usize) -> Seq<(usize, u64)>
    decreases k,
{
    if k == 0 {
        Seq::empty()
    } else {
        let i = k - 1;
        let a = pairs[2 * i];
        let b = pairs[2 * i + 1];
        let prev = undirected_list(pairs, n, (k - 1) as nat, v);
        if a < n && b < n {
            prev + (if a == v {
                seq![(b as usize, 1u64)]
            } else {
                Seq::empty()
            }) + (if b == v {
                seq![(a as usize, 1u64)]
            } else {
                Seq::empty()
            })
        } else {
            prev
        }
    }
}

/// Number of the first `k` pairs whose two ends are below `n`.
pub open spec fn kept_pairs(pairs: Seq<u32>, n: nat, k: nat) -> nat
    decreases k,
{
    if k == 0 {
        0
    } else {
        let i = k - 1;
        kept_pairs(pairs, n, (k - 1) as nat) + if pairs[2 * i] < n && pairs[2 * i + 1] < n {
            1nat
        } else {
            0nat
        }
    }
}

/// An undirected weighted graph over nodes `0 .. n`.
pub struct WeightedGraph {
    /// Per node: `(neighbour, weight)`, one entry per edge end.
    pub neighbors: Vec<Vec<(usize, u64)>>,
    /// Per node: the summed weight of its entries.
    pub degree: Vec<u64>,
    /// Summed weight of all edges, each counted once.
    pub total_weight: u64,
}

/// The graph that modularity is measured on: each directed edge of a
/// compressed adjacency export over `node_count` slots becomes an undirected
/// edge of weight 1; edges to slots at or above `node_count` are skipped.
pub fn graph_from_csr(csr: &[u32], node_count: usize) -> (r: WeightedGraph)
    requires
        node_count <= u32::MAX,
    ensures
        ({
            let pairs = crate::csr::edge_pairs_of(csr@, node_count as nat);
            let k = pairs.len() / 2;
            &&& r.neighbors@.len() == node_count
            &&& r.degree@.len() == node_count
            &&& forall|v: int|
                0 <= v < node_count ==> (#[trigger] r.neighbors@[v])@ == undirected_list(
                    pairs,
                    node_count as nat,
                    k,
                    v as usize,
                ) && r.degree@[v] == r.neighbors@[v]@.len()
            &&& r.total_weight == kept_pairs(pairs, node_count as nat, k)
        }),
{
    let pairs = crate::csr::csr_edge_pairs(csr, node_count);
    let ghost ps = pairs@;
    let n = node_count;
    let mut neighbors: Vec<Vec<(usize, u64)>> = Vec::new();
    let mut degree: Vec<u64> = Vec::new();
    let mut v: usize = 0;
    while v < n
        invariant
            v <= n,
            neighbors@.len() == v,
            degree@.len() == v,
            forall|u: int| 0 <= u < v ==> (#[trigger] neighbors@[u])@ == Seq::<(usize, u64)>::empty(),
            forall|u: int| 0 <= u < v ==> #[trigger] degree@[u] == 0,
        decreases n - v,
    {
        neighbors.push(Vec::new());
        degree.push(0);
        v = v + 1;
    }
    let len = pairs.len();
    let count = len / 2;
    let mut total: u64 = 0;
    let mut i: usize = 0;
    while i < count
        invariant
            ps == pairs@,
            n == node_count,
            n <= u32::MAX,
            len == ps.len(),
            count == len / 2,
            2 * count <= len,
            i <= count,
            neighbors@.len() == n,
            degree@.len() == n,
            forall|u: int|
                0 <= u < n ==> (#[trigger] neighbors@[u])@ == undirected_list(ps, n as nat, i as nat, u as usize)
                    && degree@[u] == neighbors@[u]@.len() && neighbors@[u]@.len() <= 2 * i,
            total == kept_pairs(ps, n as nat, i as nat),
            total <= i,
        decreases count - i,
    {
        let a = pairs[2 * i];
        let b = pairs[2 * i + 1];
        if (a as usize) < n && (b as usize) < n {
            let ghost before = neighbors@;
            neighbors[a as usize].push((b as usize, 1));
            let da = degree[a as usize];
            degree.set(a as usize, da + 1);
            let ghost middle = neighbors@;
            neighbors[b as usize].push((a as usize, 1));
            let db = degree[b as usize];
            degree.set(b as usize, db + 1);
            total = total + 1;
            assert forall|u: int|
                0 <= u < n implies (#[trigger] neighbors@[u])@ == undirected_list(
                ps,
                n as nat,
                i as nat + 1,
                u as usize,
            ) && degree@[u] == neighbors@[u]@.len() && neighbors@[u]@.len() <= 2 * (i + 1) by {
                let prev = undirected_list(ps, n as nat, i as nat, u as usize);
                assert(before[u]@ == prev);
                if u == a as int && u == b as int {
                    assert(neighbors@[u]@ =~= prev + seq![(b as usize, 1u64)] + seq![(a as usize, 1u64)]);
                } else if u == a as int {
                    assert(neighbors@[u]@ =~= prev + seq![(b as usize, 1u64)] + Seq::empty());
                } else if u == b as int {
                    assert(neighbors@[u]@ =~= prev + Seq::empty() + seq![(a as usize, 1u64)]);
                } else {
                    assert(neighbors@[u]@ =~= prev + Seq::<(usize, u64)>::empty() + Seq::empty());
                }
            }
        }
        i = i + 1;
    }
    WeightedGraph { neighbors, degree, total_weight: total }
}

/// The lists of a graph as sequences.
pub open spec fn lists_of(g: &WeightedGraph) -> Seq<Seq<(usize, u64)>> {
    g.neighbors@.map_values(|l: Vec<(usize, u64)>| l@)
}

/// Summed weight of the entries of `es`.
pub open spec fn entry_sum(es: Seq<(usize, u64)>) -> nat
    decreases es.len(),
{
    if es.len() == 0 {
        0
    } else {
        entry_sum(es.drop_last()) + es.last().1 as nat
    }
}

/// Summed weight of the entries of `es` that lead into community `b`.
pub open spec fn entry_sum_into(es: Seq<(usize, u64)>, comm: Seq<usize>, b: usize) -> nat
    decreases es.len(),
{
    if es.len() == 0 {
        0
    } else {
        entry_sum_into(es.drop_last(), comm, b) + if comm[es.last().0 as int] == b {
            es.last().1 as nat
        } else {
            0nat
        }
    }
}

/// The nodes below `k` in community `a`, in order.
pub open spec fn members_of(comm: Seq<usize>, a: usize, k: nat) -> Seq<usize>
    decreases k,
{
    if k == 0 {
        Seq::empty()
    } else {
        members_of(comm, a, (k - 1) as nat) + if comm[k - 1] == a {
            seq![(k - 1) as usize]
        } else {
            Seq::empty()
        }
    }
}

/// Summed weight, over the nodes `us`, of their entries into community `b`.
pub open spec fn weight_into(nb: Seq<Seq<(usize, u64)>>, comm: Seq<usize>, us: Seq<usize>, b: usize) -> nat
    decreases us.len(),
{
    if us.len() == 0 {
        0
    } else {
        weight_into(nb, comm, us.drop_last(), b) + entry_sum_into(nb[us.last() as int], comm, b)
    }
}

/// Summed weight of all entries of the nodes `us`.
pub open spec fn weight_of(nb: Seq<Seq<(usize, u64)>>, us: Seq<usize>) -> nat
    decreases us.len(),
{
    if us.len() == 0 {
        0
    } else {
        weight_of(nb, us.drop_last()) + entry_sum(nb[us.last() as int])
    }
}

/// Summed weight of all entries of nodes `0 .. k`.
pub open spec fn all_weight(nb: Seq<Seq<(usize, u64)>>, k: nat) -> nat
    decreases k,
{
    if k == 0 {
        0
    } else {
        all_weight(nb, (k - 1) as nat) + entry_sum(nb[k - 1])
    }
}

/// Community `a`'s list in the coarsened graph, over communities `0 .. m`:
/// each community that `a`'s members have positive weight into (`a` itself
/// included, as a self-loop), with that weight.
pub open spec fn coarse_row(
    nb: Seq<Seq<(usize, u64)>>,
    comm: Seq<usize>,
    a: usize,
    m: nat,
) -> Seq<(usize, u64)>
    decreases m,
{
    if m == 0 {
        Seq::empty()
    } else {
        let b = (m - 1) as usize;
        let w = weight_into(nb, comm, members_of(comm, a, comm.len()), b);
        coarse_row(nb, comm, a, (m - 1) as nat) + if w > 0 {
            seq![(b, w as u64)]
        } else {
            Seq::empty()
        }
    }
}

proof fn lemma_entry_sums(es: Seq<(usize, u64)>, comm: Seq<usize>, b: usize)
    ensures
        entry_sum_into(es, comm, b) <= entry_sum(es),
    decreases es.len(),
{
    if es.len() > 0 {
        lemma_entry_sums(es.drop_last(), comm, b);
    }
}

proof fn lemma_weights_bounded(nb: Seq<Seq<(usize, u64)>>, comm: Seq<usize>, us: Seq<usize>, b: usize)
    ensures
        weight_into(nb, comm, us, b) <= weight_of(nb, us),
    decreases us.len(),
{
    if us.len() > 0 {
        lemma_weights_bounded(nb, comm, us.drop_last(), b);
        lemma_entry_sums(nb[us.last() as int], comm, b);
    }
}

/// The members of one community weigh no more than all nodes together.
proof fn lemma_members_bounded(nb: Seq<Seq<(usize, u64)>>, comm: Seq<usize>, a: usize, k: nat)
    requires
        k <= comm.len(),
        k <= usize::MAX,
    ensures
        weight_of(nb, members_of(comm, a, k)) <= all_weight(nb, k),
    decreases k,
{
    if k > 0 {
        lemma_members_bounded(nb, comm, a, (k - 1) as nat);
        let prev = members_of(comm, a, (k - 1) as nat);
        if comm[k - 1] == a {
            assert(members_of(comm, a, k).drop_last() =~= prev);
            assert(members_of(comm, a, k).last() == (k - 1) as usize);
        } else {
            assert(members_of(comm, a, k) =~= prev);
        }
    }
}

/// The coarsened graph: one node per community. A community's list holds,
/// for each community its members have positive weight into (itself
/// included, as a self-loop), the summed weight; its degree is the summed
/// weight of its members' entries; the total is half the summed weight of
/// all entries, each undirected edge being listed from both ends.
pub fn coarsen_graph(g: &WeightedGraph, community: &[usize], num_communities: usize) -> (r: WeightedGraph)
    requires
        g.neighbors@.len() == community@.len(),
        forall|u: int| 0 <= u < community@.len() ==> #[trigger] community@[u] < num_communities,
        forall|u: int, j: int|
            0 <= u < g.neighbors@.len() && 0 <= j < g.neighbors@[u]@.len() ==> (#[trigger] g.neighbors@[u]@[j]).0
                < community@.len(),
        all_weight(lists_of(g), community@.len() as nat) <= u64::MAX,
    ensures
        r.neighbors@.len() == num_communities,
        r.degree@.len() == num_communities,
        forall|a: int|
            0 <= a < num_communities ==> (#[trigger] r.neighbors@[a])@ == coarse_row(
                lists_of(g),
                community@,
                a as usize,
                num_communities as nat,
            ) && r.degree@[a] == weight_of(
                lists_of(g),
                members_of(community@, a as usize, community@.len() as nat),
            ),
        r.total_weight == all_weight(lists_of(g), community@.len() as nat) / 2,
{
    let ghost nb = lists_of(g);
    let ghost comm = community@;
    let n = community.len();
    let mut members: Vec<Vec<usize>> = Vec::new();
    let mut a: usize = 0;
    while a < num_communities
        invariant
            a <= num_communities,
            members@.len() == a,
            forall|c: int| 0 <= c < a ==> (#[trigger] members@[c])@ == Seq::<usize>::empty(),
        decreases num_communities - a,
    {
        members.push(Vec::new());
        a = a + 1;
    }
    let mut u: usize = 0;
    while u < n
        invariant
            comm == community@,
            n == comm.len(),
            u <= n,
            members@.len() == num_communities,
            forall|c: int| 0 <= c < comm.len() ==> #[trigger] comm[c] < num_communities,
            forall|c: int|
                0 <= c < num_communities ==> (#[trigger] members@[c])@ == members_of(comm, c as usize, u as nat),
        decreases n - u,
    {
        let c = community[u];
        members[c].push(u);
        assert forall|x: int|
            0 <= x < num_communities implies (#[trigger] members@[x])@ == members_of(comm, x as usize, u as nat + 1) by {}
        u = u + 1;
    }
    let mut all: u64 = 0;
    u = 0;
    while u < n
        invariant
            nb == lists_of(g),
            g.neighbors@.len() == n,
            u <= n,
            all == all_weight(nb, u as nat),
            all_weight(nb, n as nat) <= u64::MAX,
        decreases n - u,
    {
        let m = g.neighbors[u].len();
        let mut j: usize = 0;
        let ghost base = all as nat;
        proof {
            lemma_all_weight_grows(nb, u as nat + 1, n as nat);
        }
        while j < m
            invariant
                nb == lists_of(g),
                u < n,
                g.neighbors@.len() == n,
                m == nb[u as int].len(),
                j <= m,
                all == base + entry_sum(nb[u as int].take(j as int)),
                base == all_weight(nb, u as nat),
                all_weight(nb, u as nat + 1) <= u64::MAX,
            decreases m - j,
        {
            proof {
                assert(nb[u as int].take(j + 1).drop_last() =~= nb[u as int].take(j as int));
                lemma_entry_prefix(nb[u as int], j as nat + 1);
            }
            let w = g.neighbors[u][j].1;
            all = all + w;
            j = j + 1;
        }
        assert(nb[u as int].take(m as int) =~= nb[u as int]);
        u = u + 1;
    }
    let mut neighbors: Vec<Vec<(usize, u64)>> = Vec::new();
    let mut degree: Vec<u64> = Vec::new();
    a = 0;
    while a < num_communities
        invariant
            nb == lists_of(g),
            comm == community@,
            n == comm.len(),
            g.neighbors@.len() == n,
            a <= num_communities,
            members@.len() == num_communities,
            forall|c: int| 0 <= c < comm.len() ==> #[trigger] comm[c] < num_communities,
            forall|x: int, j: int|
                0 <= x < n && 0 <= j < nb[x].len() ==> (#[trigger] nb[x][j]).0 < n,
            forall|c: int|
                0 <= c < num_communities ==> (#[trigger] members@[c])@ == members_of(comm, c as usize, n as nat),
            all_weight(nb, n as nat) <= u64::MAX,
            neighbors@.len() == a,
            degree@.len() == a,
            forall|c: int|
                0 <= c < a ==> (#[trigger] neighbors@[c])@ == coarse_row(nb, comm, c as usize, num_communities as nat)
                    && degree@[c] == weight_of(nb, members_of(comm, c as usize, n as nat)),
        decreases num_communities - a,
    {
        let (row, deg) = coarse_community(g, community, num_communities, &members[a], Ghost(a as int));
        neighbors.push(row);
        degree.push(deg);
        a = a + 1;
    }
    WeightedGraph { neighbors, degree, total_weight: all / 2 }
}

proof fn lemma_all_weight_grows(nb: Seq<Seq<(usize, u64)>>, j: nat, k: nat)
    requires
        j <= k,
    ensures
        all_weight(nb, j) <= all_weight(nb, k),
    decreases k - j,
{
    if j < k {
        lemma_all_weight_grows(nb, j, (k - 1) as nat);
    }
}

proof fn lemma_entry_prefix(es: Seq<(usize, u64)>, j: nat)
    requires
        j <= es.len(),
    ensures
        entry_sum(es.take(j as int)) <= entry_sum(es),
    decreases es.len() - j,
{
    if j < es.len() {
        lemma_entry_prefix(es, j + 1);
        assert(es.take(j + 1 as int).drop_last() =~= es.take(j as int));
    } else {
        assert(es.take(j as int) =~= es);
    }
}

proof fn lemma_members_in_range(comm: Seq<usize>, a: usize, k: nat)
    requires
        k <= comm.len(),
        k <= usize::MAX,
    ensures
        forall|i: int|
            0 <= i < members_of(comm, a, k).len() ==> (#[trigger] members_of(comm, a, k)[i]) < k,
    decreases k,
{
    if k > 0 {
        lemma_members_in_range(comm, a, (k - 1) as nat);
        let prev = members_of(comm, a, (k - 1) as nat);
        let cur = members_of(comm, a, k);
        assert forall|i: int| 0 <= i < cur.len() implies (#[trigger] cur[i]) < k by {
            if i < prev.len() {
                assert(cur[i] == prev[i]);
            }
        }
    }
}

proof fn lemma_weight_prefix(nb: Seq<Seq<(usize, u64)>>, us: Seq<usize>, i: nat)
    requires
        i <= us.len(),
    ensures
        weight_of(nb, us.take(i as int)) <= weight_of(nb, us),
    decreases us.len() - i,
{
    if i < us.len() {
        lemma_weight_prefix(nb, us, i + 1);
        assert(us.take(i + 1 as int).drop_last() =~= us.take(i as int));
    } else {
        assert(us.take(i as int) =~= us);
    }
}

/// One community's row and degree in the coarsened graph; `members` are its
/// members in order.
fn coarse_community(
    g: &WeightedGraph,
    community: &[usize],
    num_communities: usize,
    members: &Vec<usize>,
    Ghost(a): Ghost<int>,
) -> (r: (Vec<(usize, u64)>, u64))
    requires
        0 <= a < num_communities,
        g.neighbors@.len() == community@.len(),
        members@ == members_of(community@, a as usize, community@.len() as nat),
        forall|c: int| 0 <= c < community@.len() ==> #[trigger] community@[c] < num_communities,
        forall|x: int, j: int|
            0 <= x < community@.len() && 0 <= j < lists_of(g)[x].len() ==> (#[trigger] lists_of(g)[x][j]).0
                < community@.len(),
        all_weight(lists_of(g), community@.len() as nat) <= u64::MAX,
    ensures
        r.0@ == coarse_row(lists_of(g), community@, a as usize, num_communities as nat),
        r.1 == weight_of(lists_of(g), members@),
{
    let ghost nb = lists_of(g);
    let ghost comm = community@;
    let ghost ms = members@;
    let n = community.len();
    proof {
        lemma_members_in_range(comm, a as usize, n as nat);
        lemma_members_bounded(nb, comm, a as usize, n as nat);
    }
    let mut acc: Vec<u64> = Vec::new();
    let mut b: usize = 0;
    while b < num_communities
        invariant
            b <= num_communities,
            acc@.len() == b,
            forall|c: int| 0 <= c < b ==> #[trigger] acc@[c] == 0,
        decreases num_communities - b,
    {
        acc.push(0);
        b = b + 1;
    }
    let mut deg: u64 = 0;
    let mut i: usize = 0;
    assert(ms.take(0) =~= Seq::<usize>::empty());
    while i < members.len()
        invariant
            nb == lists_of(g),
            comm == community@,
            ms == members@,
            n == comm.len(),
            g.neighbors@.len() == n,
            i <= ms.len(),
            acc@.len() == num_communities,
            forall|c: int| 0 <= c < comm.len() ==> #[trigger] comm[c] < num_communities,
            forall|x: int, j: int| 0 <= x < n && 0 <= j < nb[x].len() ==> (#[trigger] nb[x][j]).0 < n,
            forall|x: int| 0 <= x < ms.len() ==> (#[trigger] ms[x]) < n,
            weight_of(nb, ms) <= u64::MAX,
            deg == weight_of(nb, ms.take(i as int)),
            forall|c: int|
                0 <= c < num_communities ==> #[trigger] acc@[c] == weight_into(nb, comm, ms.take(i as int), c as usize),
        decreases ms.len() - i,
    {
        let u = members[i];
        let m = g.neighbors[u].len();
        let ghost deg0 = deg as nat;
        let ghost acc0 = acc@;
        proof {
            lemma_weight_prefix(nb, ms, i as nat + 1);
            assert(ms.take(i + 1).drop_last() =~= ms.take(i as int));
        }
        assert forall|c: int| 0 <= c < num_communities implies #[trigger] acc0[c] <= deg0 by {
            lemma_weights_bounded(nb, comm, ms.take(i as int), c as usize);
        }
        let mut j: usize = 0;
        assert(nb[u as int].take(0) =~= Seq::<(usize, u64)>::empty());
        while j < m
            invariant
                nb == lists_of(g),
                comm == community@,
                n == comm.len(),
                g.neighbors@.len() == n,
                u < n,
                m == nb[u as int].len(),
                j <= m,
                acc@.len() == num_communities,
                forall|c: int| 0 <= c < comm.len() ==> #[trigger] comm[c] < num_communities,
                forall|x: int, k: int| 0 <= x < n && 0 <= k < nb[x].len() ==> (#[trigger] nb[x][k]).0 < n,
                deg0 + entry_sum(nb[u as int]) <= u64::MAX,
                deg == deg0 + entry_sum(nb[u as int].take(j as int)),
                forall|c: int|
                    0 <= c < num_communities ==> #[trigger] acc@[c] == acc0[c] + entry_sum_into(
                        nb[u as int].take(j as int),
                        comm,
                        c as usize,
                    ),
                forall|c: int| 0 <= c < num_communities ==> #[trigger] acc0[c] <= deg0,
            decreases m - j,
        {
            let (t, w) = g.neighbors[u][j];
            assert(nb[u as int][j as int] == (t, w));
            let c = community[t];
            proof {
                let pre = nb[u as int].take(j as int);
                let post = nb[u as int].take(j + 1);
                assert(post.drop_last() =~= pre);
                assert(post.last() == (t, w));
                lemma_entry_prefix(nb[u as int], j as nat + 1);
                lemma_entry_sums(post, comm, c);
                lemma_entry_sums(pre, comm, c);
            }
            let old_acc = acc[c];
            acc.set(c, old_acc + w);
            deg = deg + w;
            proof {
                let post = nb[u as int].take(j + 1);
                assert forall|x: int| 0 <= x < num_communities implies #[trigger] acc@[x] == acc0[x] + entry_sum_into(
                    post,
                    comm,
                    x as usize,
                ) by {
                    assert(post.drop_last() =~= nb[u as int].take(j as int));
                }
            }
            j = j + 1;
        }
        proof {
            assert(nb[u as int].take(m as int) =~= nb[u as int]);
            assert forall|c: int| 0 <= c < num_communities implies #[trigger] acc@[c] == weight_into(
                nb,
                comm,
                ms.take(i + 1),
                c as usize,
            ) by {
                assert(ms.take(i + 1).last() == u);
            }
            assert(ms.take(i + 1).last() == u);
        }
        i = i + 1;
    }
    assert(ms.take(ms.len() as int) =~= ms);
    let mut row: Vec<(usize, u64)> = Vec::new();
    b = 0;
    while b < num_communities
        invariant
            b <= num_communities,
            acc@.len() == num_communities,
            forall|c: int|
                0 <= c < num_communities ==> #[trigger] acc@[c] == weight_into(nb, comm, ms, c as usize),
            ms == members_of(comm, a as usize, comm.len() as nat),
            row@ == coarse_row(nb, comm, a as usize, b as nat),
        decreases num_communities - b,
    {
        if acc[b] > 0 {
            row.push((b, acc[b]));
        }
        b = b + 1;
    }
    (row, deg)
}

} // verus!

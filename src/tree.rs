//! Rooted trees over node slots, built from containment edge lists.
//!
//! The layouts read a flat `[parent, child, parent, child, ...]` array. Pairs
//! that leave the slot range or join a node to itself are dropped, an
//! odd-length array is rejected whole, and a depth-first walk from a root
//! builds a tree in which every reachable slot appears exactly once: an edge
//! back to a slot already in the tree is not followed.
use vstd::prelude::*;

use crate::counting::{count_where, lemma_count_bound, lemma_count_update};
use crate::topology::is_true;

verus! {

/// Whether pair `i` of `edges` names two distinct slots below `n`.
pub open spec fn valid_pair(n: nat, edges: Seq<u32>, i: int) -> bool {
    &&& edges[2 * i] < n
    &&& edges[2 * i + 1] < n
    &&& edges[2 * i] != edges[2 * i + 1]
}

/// Children of `p` named by the first `k` pairs, in pair order.
pub open spec fn kids(n: nat, edges: Seq<u32>, k: nat, p: u32) -> Seq<u32>
    decreases k,
{
    if k == 0 {
        Seq::empty()
    } else {
        let i = k - 1;
        kids(n, edges, (k - 1) as nat, p) + if valid_pair(n, edges, i) && edges[2 * i] == p {
            seq![edges[2 * i + 1]]
        } else {
            Seq::empty()
        }
    }
}

/// Whether one of the first `k` pairs names `v` as a child.
pub open spec fn parented(n: nat, edges: Seq<u32>, k: nat, v: u32) -> bool
    decreases k,
{
    if k == 0 {
        false
    } else {
        let i = k - 1;
        parented(n, edges, (k - 1) as nat, v) || (valid_pair(n, edges, i) && edges[2 * i + 1]
            == v)
    }
}

/// Whether one of the first `k` pairs names `v` at either end.
pub open spec fn mentioned(n: nat, edges: Seq<u32>, k: nat, v: u32) -> bool
    decreases k,
{
    if k == 0 {
        false
    } else {
        let i = k - 1;
        mentioned(n, edges, (k - 1) as nat, v) || (valid_pair(n, edges, i) && (edges[2 * i] == v
            || edges[2 * i + 1] == v))
    }
}

/// Per slot, its children lists, as a sequence of sequences.
pub type Adjacency = Seq<Seq<u32>>;

/// Every listed child is a slot of the adjacency other than its parent.
pub open spec fn adjacency_closed(ch: Adjacency) -> bool {
    forall|p: int, k: int|
        0 <= p < ch.len() && 0 <= k < ch[p].len() ==> (#[trigger] ch[p][k]) < ch.len() && ch[p][k]
            != p
}

/// Whether `b` is a child of `a`.
pub open spec fn linked(ch: Adjacency, a: u32, b: u32) -> bool {
    a < ch.len() && ch[a as int].contains(b)
}

/// `path` follows child links from its first slot to its last.
pub open spec fn is_path(ch: Adjacency, path: Seq<u32>) -> bool {
    &&& path.len() >= 1
    &&& forall|i: int| 0 <= i < path.len() - 1 ==> #[trigger] linked(ch, path[i], path[i + 1])
}

/// Whether `v` can be reached from `root` along child links (`root` itself
/// included).
pub open spec fn reachable(ch: Adjacency, root: u32, v: u32) -> bool {
    exists|path: Seq<u32>| #[trigger] is_path(ch, path) && path[0] == root && path.last() == v
}

/// Per slot below `ch.len()`: whether it is reachable from `root`.
pub open spec fn reach_flags(ch: Adjacency, root: u32) -> Seq<bool> {
    Seq::new(ch.len(), |v: int| reachable(ch, root, v as u32))
}

/// Number of slots reachable from `root`, `root` included.
pub open spec fn reach_count(ch: Adjacency, root: u32) -> nat {
    count_where(reach_flags(ch, root), |b: bool| is_true(b))
}

pub proof fn lemma_root_reachable(ch: Adjacency, root: u32)
    ensures
        reachable(ch, root, root),
{
    let path = seq![root];
    assert(is_path(ch, path));
}

pub proof fn lemma_reach_step(ch: Adjacency, root: u32, v: u32, c: u32)
    requires
        reachable(ch, root, v),
        v < ch.len(),
        ch[v as int].contains(c),
    ensures
        reachable(ch, root, c),
{
    let path = choose|path: Seq<u32>| #[trigger] is_path(ch, path) && path[0] == root && path.last() == v;
    let longer = path.push(c);
    assert forall|i: int| 0 <= i < longer.len() - 1 implies #[trigger] linked(
        ch,
        longer[i],
        longer[i + 1],
    ) by {
        if i < path.len() - 1 {
            assert(longer[i] == path[i] && longer[i + 1] == path[i + 1]);
            assert(linked(ch, path[i], path[i + 1]));
        } else {
            assert(longer[i] == v);
            assert(longer[i + 1] == c);
        }
    }
    assert(longer[0] == root);
    assert(is_path(ch, longer));
}

/// A set of slots that holds `root` and is closed under child links holds
/// every slot reachable from `root`.
pub proof fn lemma_closed_holds_reach(ch: Adjacency, root: u32, s: Seq<bool>, v: u32)
    requires
        s.len() == ch.len(),
        root < s.len(),
        s[root as int],
        forall|u: int, k: int|
            0 <= u < s.len() && s[u] && 0 <= k < ch[u].len() ==> #[trigger] ch[u][k] < s.len()
                && s[ch[u][k] as int],
        reachable(ch, root, v),
    ensures
        v < s.len() && s[v as int],
{
    let path = choose|path: Seq<u32>| #[trigger] is_path(ch, path) && path[0] == root && path.last() == v;
    lemma_path_stays(ch, path, s, path.len() - 1);
}

proof fn lemma_path_stays(ch: Adjacency, path: Seq<u32>, s: Seq<bool>, i: int)
    requires
        is_path(ch, path),
        0 <= i < path.len(),
        s.len() == ch.len(),
        path[0] < s.len() && s[path[0] as int],
        forall|u: int, k: int|
            0 <= u < s.len() && s[u] && 0 <= k < ch[u].len() ==> #[trigger] ch[u][k] < s.len()
                && s[ch[u][k] as int],
    ensures
        path[i] < s.len() && s[path[i] as int],
    decreases i,
{
    if i > 0 {
        lemma_path_stays(ch, path, s, i - 1);
        let u = path[i - 1] as int;
        let j = i - 1;
        assert(linked(ch, path[j], path[j + 1]));
        assert(ch[u].contains(path[i]));
        let k = choose|k: int| 0 <= k < ch[u].len() && ch[u][k] == path[i];
        assert(ch[u][k] < s.len() && s[ch[u][k] as int]);
    }
}

/// Children lists per slot, parsed from a containment edge array.
pub struct ChildLists {
    /// Per slot: its children, in edge order.
    pub children: Vec<Vec<u32>>,
    /// Per slot: whether some kept pair names it as a child.
    pub has_parent: Vec<bool>,
    /// Per slot: whether some kept pair names it.
    pub mentioned: Vec<bool>,
}

impl ChildLists {
    pub open spec fn adjacency(&self) -> Adjacency {
        self.children@.map_values(|c: Vec<u32>| c@)
    }

    pub open spec fn slots(&self) -> nat {
        self.children@.len()
    }

    pub open spec fn well_formed(&self) -> bool {
        &&& self.has_parent@.len() == self.slots()
        &&& self.mentioned@.len() == self.slots()
        &&& self.slots() <= u32::MAX
        &&& adjacency_closed(self.adjacency())
    }

    /// Exactly what the first `k` pairs of `edges` over `n` slots describe.
    pub open spec fn describes(&self, n: nat, edges: Seq<u32>, k: nat) -> bool {
        &&& self.slots() == n
        &&& forall|p: int| 0 <= p < n ==> (#[trigger] self.children@[p])@ == kids(n, edges, k, p as u32)
        &&& forall|v: int| 0 <= v < n ==> #[trigger] self.has_parent@[v] == parented(n, edges, k, v as u32)
        &&& forall|v: int| 0 <= v < n ==> #[trigger] self.mentioned@[v] == mentioned(n, edges, k, v as u32)
    }
}

pub proof fn lemma_kids_closed(n: nat, edges: Seq<u32>, k: nat, p: u32)
    requires
        2 * k <= edges.len(),
    ensures
        forall|j: int|
            0 <= j < kids(n, edges, k, p).len() ==> (#[trigger] kids(n, edges, k, p)[j]) < n && kids(
                n,
                edges,
                k,
                p,
            )[j] != p,
    decreases k,
{
    if k > 0 {
        lemma_kids_closed(n, edges, (k - 1) as nat, p);
        let a = kids(n, edges, (k - 1) as nat, p);
        let i = k - 1;
        let b = if valid_pair(n, edges, i) && edges[2 * i] == p {
            seq![edges[2 * i + 1]]
        } else {
            Seq::<u32>::empty()
        };
        assert(kids(n, edges, k, p) == a + b);
        assert forall|j: int| 0 <= j < (a + b).len() implies (#[trigger] (a + b)[j]) < n && (a
            + b)[j] != p by {
            if j < a.len() {
                assert((a + b)[j] == a[j]);
            } else {
                assert((a + b)[j] == b[j - a.len()]);
            }
        }
    }
}

/// Parses `[parent, child, ...]` pairs over `node_count` slots. `None` for an
/// array of odd length; otherwise the children lists of the pairs that name
/// two distinct slots below `node_count`.
pub fn parse_tree_edges(node_count: usize, edges: &[u32]) -> (r: Option<ChildLists>)
    requires
        node_count <= u32::MAX,
    ensures
        r is None <==> edges@.len() % 2 == 1,
        r is Some ==> r->0.well_formed() && r->0.describes(
            node_count as nat,
            edges@,
            edges@.len() / 2,
        ),
{
    let len = edges.len();
    if len % 2 == 1 {
        return None;
    }
    let n = node_count;
    let mut children: Vec<Vec<u32>> = Vec::new();
    let mut has_parent: Vec<bool> = Vec::new();
    let mut seen: Vec<bool> = Vec::new();
    let mut v: usize = 0;
    while v < n
        invariant
            v <= n,
            children@.len() == v,
            has_parent@.len() == v,
            seen@.len() == v,
            forall|p: int| 0 <= p < v ==> (#[trigger] children@[p])@ == Seq::<u32>::empty(),
            forall|p: int| 0 <= p < v ==> !(#[trigger] has_parent@[p]),
            forall|p: int| 0 <= p < v ==> !(#[trigger] seen@[p]),
        decreases n - v,
    {
        children.push(Vec::new());
        has_parent.push(false);
        seen.push(false);
        v = v + 1;
    }
    let count = len / 2;
    let mut i: usize = 0;
    while i < count
        invariant
            n == node_count,
            n <= u32::MAX,
            len == edges@.len(),
            count == len / 2,
            2 * count <= len,
            i <= count,
            children@.len() == n,
            has_parent@.len() == n,
            seen@.len() == n,
            forall|p: int| 0 <= p < n ==> (#[trigger] children@[p])@ == kids(n as nat, edges@, i as nat, p as u32),
            forall|p: int| 0 <= p < n ==> #[trigger] has_parent@[p] == parented(n as nat, edges@, i as nat, p as u32),
            forall|p: int| 0 <= p < n ==> #[trigger] seen@[p] == mentioned(n as nat, edges@, i as nat, p as u32),
        decreases count - i,
    {
        let parent = edges[2 * i];
        let child = edges[2 * i + 1];
        if (parent as usize) < n && (child as usize) < n && parent != child {
            children[parent as usize].push(child);
            has_parent.set(child as usize, true);
            seen.set(parent as usize, true);
            seen.set(child as usize, true);
        }
        i = i + 1;
    }
    let r = ChildLists { children, has_parent, mentioned: seen };
    assert forall|p: int, k: int|
        0 <= p < r.adjacency().len() && 0 <= k < r.adjacency()[p].len() implies (
        #[trigger] r.adjacency()[p][k]) < r.adjacency().len() && r.adjacency()[p][k] != p by {
        lemma_kids_closed(n as nat, edges@, count as nat, p as u32);
        assert(r.adjacency()[p] == kids(n as nat, edges@, count as nat, p as u32));
    }
    Some(r)
}

/// All children of `u` are marked in `s`.
pub open spec fn finished(ch: Adjacency, s: Seq<bool>, u: int) -> bool {
    forall|k: int| 0 <= k < ch[u].len() ==> #[trigger] s[ch[u][k] as int]
}

/// A marking that holds exactly the slots reachable from `root`: it holds
/// `root`, only reachable slots, and is closed under child links.
pub proof fn lemma_marks_are_reach(ch: Adjacency, root: u32, s: Seq<bool>)
    requires
        adjacency_closed(ch),
        s.len() == ch.len(),
        ch.len() <= u32::MAX,
        root < s.len(),
        s[root as int],
        forall|v: int| 0 <= v < s.len() && #[trigger] s[v] ==> reachable(ch, root, v as u32),
        forall|u: int| 0 <= u < s.len() && #[trigger] s[u] ==> finished(ch, s, u),
    ensures
        s == reach_flags(ch, root),
{
    assert forall|u: int, k: int|
        0 <= u < s.len() && s[u] && 0 <= k < ch[u].len() implies #[trigger] ch[u][k] < s.len()
        && s[ch[u][k] as int] by {
        assert(finished(ch, s, u));
    }
    assert forall|v: int| 0 <= v < s.len() implies s[v] == #[trigger] reach_flags(ch, root)[v] by {
        if reachable(ch, root, v as u32) {
            lemma_closed_holds_reach(ch, root, s, v as u32);
        }
    }
    assert(s =~= reach_flags(ch, root));
}

/// Number of slots reachable from `node` along child links, `node` itself
/// not counted. Safe on cycles: each slot is counted once.
pub fn count_descendants(lists: &ChildLists, node: u32) -> (r: usize)
    requires
        lists.well_formed(),
        node < lists.slots(),
    ensures
        r + 1 == reach_count(lists.adjacency(), node),
{
    let ghost ch = lists.adjacency();
    let n = lists.children.len();
    let mut visited: Vec<bool> = Vec::new();
    let mut v: usize = 0;
    while v < n
        invariant
            v <= n,
            visited@.len() == v,
            forall|u: int| 0 <= u < v ==> !(#[trigger] visited@[u]),
        decreases n - v,
    {
        visited.push(false);
        v = v + 1;
    }
    proof {
        crate::counting::lemma_count_empty(visited@, |b: bool| is_true(b));
        lemma_count_update(visited@, node as int, true, |b: bool| is_true(b));
        lemma_root_reachable(ch, node);
    }
    let ghost blank = visited@;
    visited.set(node as usize, true);
    let mut count: usize = 0;
    let mut stack: Vec<u32> = Vec::new();
    stack.push(node);
    assert forall|u: int|
        0 <= u < n && #[trigger] visited@[u] implies stack@.contains(u as u32) || finished(
        ch,
        visited@,
        u,
    ) by {
        if u != node as int {
            assert(blank[u] == visited@[u]);
        }
        assert(stack@[0] == node);
    }
    while stack.len() > 0
        invariant
            lists.well_formed(),
            ch == lists.adjacency(),
            n == ch.len(),
            node < n,
            visited@.len() == n,
            visited@[node as int],
            count + 1 == count_where(visited@, |b: bool| is_true(b)),
            forall|u: int| 0 <= u < n && #[trigger] visited@[u] ==> reachable(ch, node, u as u32),
            forall|i: int|
                0 <= i < stack@.len() ==> #[trigger] stack@[i] < n && visited@[stack@[i] as int],
            forall|u: int|
                0 <= u < n && #[trigger] visited@[u] ==> stack@.contains(u as u32) || finished(
                    ch,
                    visited@,
                    u,
                ),
        decreases 2 * (n - count) + stack@.len(),
    {
        proof {
            lemma_count_bound(visited@, |b: bool| is_true(b));
        }
        let ghost measure = 2 * (n - count) + stack@.len();
        let ghost full = stack@;
        let top = stack.pop();
        let u = match top {
            Some(u) => u,
            None => {
                return count;
            },
        };
        assert(full == stack@.push(u));
        assert forall|w: int|
            0 <= w < n && #[trigger] visited@[w] implies stack@.contains(w as u32) || finished(
            ch,
            visited@,
            w,
        ) || w == u by {
            if full.contains(w as u32) {
                let i = choose|i: int| 0 <= i < full.len() && full[i] == w as u32;
                if i < stack@.len() {
                    assert(stack@[i] == w as u32);
                } else {
                    assert(full[i] == u);
                }
            }
        }
        assert forall|i: int| 0 <= i < stack@.len() implies #[trigger] stack@[i] < n && visited@[stack@[i] as int] by {
            assert(stack@[i] == full[i]);
        }
        let m = lists.children[u as usize].len();
        let mut k: usize = 0;
        while k < m
            invariant
                lists.well_formed(),
                ch == lists.adjacency(),
                n == ch.len(),
                node < n,
                u < n,
                visited@[u as int],
                m == ch[u as int].len(),
                k <= m,
                visited@.len() == n,
                visited@[node as int],
                count + 1 == count_where(visited@, |b: bool| is_true(b)),
                2 * (n - count) + stack@.len() < measure,
                forall|w: int| 0 <= w < n && #[trigger] visited@[w] ==> reachable(ch, node, w as u32),
                forall|i: int|
                    0 <= i < stack@.len() ==> #[trigger] stack@[i] < n && visited@[stack@[i] as int],
                forall|j: int| 0 <= j < k ==> #[trigger] visited@[ch[u as int][j] as int],
                forall|w: int|
                    0 <= w < n && #[trigger] visited@[w] ==> stack@.contains(w as u32) || finished(
                        ch,
                        visited@,
                        w,
                    ) || w == u,
            decreases m - k,
        {
            let c = lists.children[u as usize][k];
            assert(c == ch[u as int][k as int]);
            assert(c < n);
            if !visited[c as usize] {
                proof {
                    lemma_count_update(visited@, c as int, true, |b: bool| is_true(b));
                    lemma_count_bound(visited@, |b: bool| is_true(b));
                    assert(ch[u as int].contains(c));
                    lemma_reach_step(ch, node, u, c);
                }
                let ghost before = visited@;
                let ghost stack_before = stack@;
                visited.set(c as usize, true);
                count = count + 1;
                stack.push(c);
                assert forall|w: int|
                    0 <= w < n && #[trigger] visited@[w] implies stack@.contains(w as u32)
                    || finished(ch, visited@, w) || w == u by {
                    if w == c {
                        assert(stack@[stack@.len() - 1] == c);
                    } else {
                        assert(before[w]);
                        if stack_before.contains(w as u32) {
                            let i = choose|i: int| 0 <= i < stack_before.len() && stack_before[i] == w as u32;
                            assert(stack@[i] == w as u32);
                        } else if finished(ch, before, w) {
                            assert forall|j: int| 0 <= j < ch[w].len() implies #[trigger] visited@[ch[w][j] as int] by {
                                assert(before[ch[w][j] as int]);
                            }
                        }
                    }
                }
            }
            k = k + 1;
        }
        assert(finished(ch, visited@, u as int));
        proof {
            lemma_count_bound(visited@, |b: bool| is_true(b));
        }
        assert(count < n);
        assert(2 * (n - count) + stack@.len() < measure);
    }
    proof {
        lemma_marks_are_reach(ch, node, visited@);
    }
    count
}

impl ChildLists {
    /// A slot named by some kept pair and by none as a child.
    pub open spec fn is_candidate(&self, v: int) -> bool {
        0 <= v < self.slots() && self.mentioned@[v] && !self.has_parent@[v]
    }

    pub open spec fn any_mentioned(&self) -> bool {
        exists|v: int| 0 <= v < self.slots() && #[trigger] self.mentioned@[v]
    }

    pub open spec fn any_candidate(&self) -> bool {
        exists|v: int| #[trigger] self.is_candidate(v)
    }

    /// The root picked when none is given: among the parentless slots the one
    /// reaching the most slots, the lowest on a tie; when every slot has a
    /// parent, the lowest slot named at all.
    pub open spec fn is_auto_root(&self, r: u32) -> bool {
        if self.any_candidate() {
            &&& self.is_candidate(r as int)
            &&& forall|q: int|
                #[trigger] self.is_candidate(q) ==> (q < r ==> reach_count(self.adjacency(), q as u32)
                    < reach_count(self.adjacency(), r)) && (q > r ==> reach_count(
                    self.adjacency(),
                    q as u32,
                ) <= reach_count(self.adjacency(), r))
        } else {
            &&& r < self.slots()
            &&& self.mentioned@[r as int]
            &&& forall|q: int| 0 <= q < r ==> !(#[trigger] self.mentioned@[q])
        }
    }
}

/// The root of the tree: `explicit` when given; otherwise the automatic
/// choice, or `None` when no pair was kept.
pub fn select_root(lists: &ChildLists, explicit: Option<u32>) -> (r: Option<u32>)
    requires
        lists.well_formed(),
    ensures
        explicit is Some ==> r == explicit,
        explicit is None ==> (r is None <==> !lists.any_mentioned()),
        explicit is None && r is Some ==> lists.is_auto_root(r->0),
{
    if let Some(root) = explicit {
        return Some(root);
    }
    let ghost ch = lists.adjacency();
    let n = lists.children.len();
    let mut lowest: Option<u32> = None;
    let mut best: Option<u32> = None;
    let mut best_count: usize = 0;
    let mut v: usize = 0;
    while v < n
        invariant
            lists.well_formed(),
            ch == lists.adjacency(),
            n == lists.slots(),
            v <= n,
            lowest is None ==> forall|q: int| 0 <= q < v ==> !(#[trigger] lists.mentioned@[q]),
            lowest is Some ==> {
                let l = lowest->0 as int;
                &&& l < v
                &&& lists.mentioned@[l]
                &&& forall|q: int| 0 <= q < l ==> !(#[trigger] lists.mentioned@[q])
            },
            best is None ==> forall|q: int| 0 <= q < v ==> !(#[trigger] lists.is_candidate(q)),
            best is Some ==> {
                let b = best->0;
                &&& b < v
                &&& lists.is_candidate(b as int)
                &&& best_count + 1 == reach_count(ch, b)
                &&& forall|q: int|
                    0 <= q < v && #[trigger] lists.is_candidate(q) ==> (q < b ==> reach_count(
                        ch,
                        q as u32,
                    ) < reach_count(ch, b)) && (q > b ==> reach_count(ch, q as u32) <= reach_count(
                        ch,
                        b,
                    ))
            },
        decreases n - v,
    {
        if lists.mentioned[v] {
            if lowest.is_none() {
                lowest = Some(v as u32);
            }
            if !lists.has_parent[v] {
                let c = count_descendants(lists, v as u32);
                match best {
                    None => {
                        best = Some(v as u32);
                        best_count = c;
                    },
                    Some(_) => {
                        if c > best_count {
                            best = Some(v as u32);
                            best_count = c;
                        }
                    },
                }
            }
        }
        v = v + 1;
    }
    match best {
        Some(b) => Some(b),
        None => {
            assert(!lists.any_candidate());
            lowest
        },
    }
}

/// One visit of the depth-first walk: the slot, the index of the node it was
/// first reached from, its depth, and its position in that node's list.
pub type Visit = (u32, Option<usize>, u32, usize);

/// The state of a depth-first walk: the visits so far, and per slot whether
/// it has been visited.
pub ghost struct Walk {
    pub visits: Seq<Visit>,
    pub marks: Seq<bool>,
}

pub open spec fn unmarked_in(marks: Seq<bool>) -> nat {
    count_where(marks, |b: bool| !is_true(b))
}

/// The walk after visiting `slot` from node `parent` at `depth` (position
/// `number` in the parent's list): nothing if the slot was visited before;
/// otherwise the slot is recorded, then its children are walked in list
/// order.
pub open spec fn visit(ch: Adjacency, w: Walk, slot: u32, parent: Option<usize>, depth: u32, number: usize) -> Walk
    decreases unmarked_in(w.marks), 1nat, 0int,
{
    if slot >= w.marks.len() || w.marks[slot as int] {
        w
    } else {
        let next = Walk {
            visits: w.visits.push((slot, parent, depth, number)),
            marks: w.marks.update(slot as int, true),
        };
        if unmarked_in(next.marks) < unmarked_in(w.marks) {
            visit_children(ch, next, (next.visits.len() - 1) as usize, slot, depth, 0)
        } else {
            next
        }
    }
}

/// The walk after taking the children of `slot` (node `idx`, at `depth`)
/// from list position `k` on.
pub open spec fn visit_children(ch: Adjacency, w: Walk, idx: usize, slot: u32, depth: u32, k: nat) -> Walk
    decreases unmarked_in(w.marks), 2nat, ch[slot as int].len() - k,
{
    if slot >= ch.len() || k >= ch[slot as int].len() {
        w
    } else {
        let after = visit(ch, w, ch[slot as int][k as int], Some(idx), (depth + 1) as u32, k as usize);
        if unmarked_in(after.marks) <= unmarked_in(w.marks) {
            visit_children(ch, after, idx, slot, depth, k + 1)
        } else {
            after
        }
    }
}

/// The depth-first walk over `ch` from `root`, starting with nothing visited.
pub open spec fn dfs_walk(ch: Adjacency, root: u32) -> Walk {
    visit(ch, Walk { visits: Seq::empty(), marks: Seq::new(ch.len(), |i: int| false) }, root, None, 0, 0)
}

/// One node of a tree built over slots.
pub struct TreeNode {
    /// The slot this node stands for.
    pub slot: u32,
    /// Distance from the root (the root has depth 0).
    pub depth: u32,
    /// Index of the parent node; `None` for the root.
    pub parent: Option<usize>,
    /// Indices of the child nodes, in the order their edges were given.
    pub children: Vec<usize>,
    /// Position of this slot in its parent slot's children list.
    pub number: usize,
}

/// A tree over slots, as an arena of nodes; the root is node 0.
pub struct SlotTree {
    pub nodes: Vec<TreeNode>,
    /// Per slot: the index of its node, if it is in the tree.
    pub index_of: Vec<Option<usize>>,
}

pub open spec fn is_some_index(o: Option<usize>) -> bool {
    o is Some
}

impl SlotTree {
    pub open spec fn len(&self) -> int {
        self.nodes@.len() as int
    }

    pub open spec fn slot(&self, i: int) -> u32 {
        self.nodes@[i].slot
    }

    pub open spec fn marks(&self) -> Seq<bool> {
        self.index_of@.map_values(|o: Option<usize>| is_some_index(o))
    }

    pub open spec fn unmarked(&self) -> nat {
        unmarked_in(self.marks())
    }

    /// The visits recorded so far: slot, parent, depth and list position of
    /// each node, in node order.
    pub open spec fn visits(&self) -> Seq<Visit> {
        self.nodes@.map_values(|n: TreeNode| (n.slot, n.parent, n.depth, n.number))
    }

    pub open spec fn walk(&self) -> Walk {
        Walk { visits: self.visits(), marks: self.marks() }
    }

    /// The node indices and the slots they stand for correspond one to one,
    /// and every node but the root hangs from an earlier node along a child
    /// link, one level deeper.
    pub open spec fn consistent(&self, ch: Adjacency, root: u32) -> bool {
        &&& self.index_of@.len() == ch.len()
        &&& self.len() == count_where(self.index_of@, |o: Option<usize>| is_some_index(o))
        &&& forall|i: int|
            0 <= i < self.len() ==> #[trigger] self.slot(i) < ch.len() && self.index_of@[self.slot(
                i,
            ) as int] == Some(i as usize) && self.nodes@[i].depth <= i
        &&& forall|v: int|
            0 <= v < ch.len() && (#[trigger] self.index_of@[v]) is Some ==> {
                let i = self.index_of@[v]->0 as int;
                &&& i < self.len()
                &&& self.slot(i) == v
                &&& reachable(ch, root, v as u32)
            }
        &&& self.len() > 0 ==> self.slot(0) == root && self.nodes@[0].parent is None
            && self.nodes@[0].depth == 0
        &&& forall|i: int| 0 < i < self.len() ==> #[trigger] self.hangs(ch, i)
    }

    /// Node `i` hangs from an earlier node along a child link.
    pub open spec fn hangs(&self, ch: Adjacency, i: int) -> bool {
        let node = self.nodes@[i];
        &&& node.parent is Some
        &&& node.parent->0 < i
        &&& node.depth == self.nodes@[node.parent->0 as int].depth + 1
        &&& node.number < ch[self.slot(node.parent->0 as int) as int].len()
        &&& ch[self.slot(node.parent->0 as int) as int][node.number as int] == node.slot
    }

    /// Node `i`'s children list holds exactly the nodes whose parent is `i`,
    /// in increasing order.
    pub open spec fn children_exact(&self, i: int) -> bool {
        let ks = self.nodes@[i].children@;
        &&& forall|a: int, b: int| 0 <= a < b < ks.len() ==> ks[a] < ks[b]
        &&& forall|a: int|
            0 <= a < ks.len() ==> #[trigger] ks[a] < self.len() && self.nodes@[ks[a] as int].parent
                == Some(i as usize)
        &&& forall|j: int|
            0 <= j < self.len() && #[trigger] self.nodes@[j].parent == Some(i as usize) ==> ks.contains(
                j as usize,
            )
    }

    /// The complete tree of the slots reachable from `root`.
    pub open spec fn is_tree_of(&self, ch: Adjacency, root: u32) -> bool {
        &&& self.consistent(ch, root)
        &&& self.len() >= 1
        &&& forall|v: int|
            0 <= v < ch.len() ==> ((#[trigger] self.index_of@[v]) is Some <==> reachable(
                ch,
                root,
                v as u32,
            ))
        &&& forall|i: int| 0 <= i < self.len() ==> #[trigger] self.children_exact(i)
    }
}

/// Adds the subtree of `slot` (depth first, children in edge order, slots
/// already in the tree skipped) below node `parent`.
fn grow(
    lists: &ChildLists,
    slot: u32,
    parent: Option<usize>,
    depth: u32,
    number: usize,
    tree: &mut SlotTree,
    Ghost(root): Ghost<u32>,
    Ghost(budget): Ghost<nat>,
)
    requires
        budget == old(tree).unmarked(),
        lists.well_formed(),
        old(tree).consistent(lists.adjacency(), root),
        slot < lists.slots(),
        old(tree).index_of@[slot as int] is None,
        reachable(lists.adjacency(), root, slot),
        parent is None ==> old(tree).len() == 0 && slot == root && depth == 0,
        parent is Some ==> {
            let p = parent->0 as int;
            &&& p < old(tree).len()
            &&& depth == old(tree).nodes@[p].depth + 1
            &&& number < lists.adjacency()[old(tree).slot(p) as int].len()
            &&& lists.adjacency()[old(tree).slot(p) as int][number as int] == slot
        },
    ensures
        final(tree).consistent(lists.adjacency(), root),
        final(tree).len() > old(tree).len(),
        final(tree).unmarked() < old(tree).unmarked(),
        final(tree).walk() == visit(lists.adjacency(), old(tree).walk(), slot, parent, depth, number),
        final(tree).slot(old(tree).len()) == slot,
        final(tree).nodes@[old(tree).len()].parent == parent,
        forall|i: int| 0 <= i < old(tree).len() ==> final(tree).nodes@[i] == old(tree).nodes@[i],
        forall|i: int|
            old(tree).len() < i < final(tree).len() ==> {
                let q = (#[trigger] final(tree).nodes@[i]).parent->0 as int;
                old(tree).len() <= q
            },
        forall|v: int|
            0 <= v < lists.slots() && (#[trigger] old(tree).index_of@[v]) is Some ==> final(tree).index_of@[v] == old(tree).index_of@[v],
        forall|v: int|
            0 <= v < lists.slots() && (#[trigger] final(tree).index_of@[v]) is Some && old(tree).index_of@[v] is None ==> finished(lists.adjacency(), final(tree).marks(), v),
        forall|i: int|
            old(tree).len() <= i < final(tree).len() ==> #[trigger] final(tree).children_exact(i),
    decreases budget,
{
    let ghost ch = lists.adjacency();
    let ghost t0 = *tree;
    assert(t0.unmarked() == budget);
    let idx = tree.nodes.len();
    proof {
        lemma_count_update(tree.index_of@, slot as int, Some(idx), |o: Option<usize>| is_some_index(o));
        lemma_count_update(tree.marks(), slot as int, true, |b: bool| !is_true(b));
        lemma_count_bound(tree.index_of@, |o: Option<usize>| is_some_index(o));
    }
    tree.index_of.set(slot as usize, Some(idx));
    tree.nodes.push(TreeNode { slot, depth, parent, children: Vec::new(), number });
    assert(tree.marks() =~= t0.marks().update(slot as int, true));
    assert(tree.visits() =~= t0.visits().push((slot, parent, depth, number)));
    let ghost w1 = tree.walk();
    assert(w1.visits.len() == idx + 1);
    assert(visit(ch, t0.walk(), slot, parent, depth, number) == visit_children(ch, w1, idx, slot, depth, 0));
    assert(tree.consistent(ch, root)) by {
        assert forall|i: int| 0 < i < tree.len() implies #[trigger] tree.hangs(ch, i) by {
            if i < idx {
                assert(t0.hangs(ch, i));
            }
        }
        assert forall|i: int|
            0 <= i < tree.len() implies #[trigger] tree.slot(i) < ch.len() && tree.index_of@[tree.slot(
            i,
        ) as int] == Some(i as usize) && tree.nodes@[i].depth <= i by {
            if i < idx {
                assert(t0.slot(i) < ch.len());
            }
        }
    }
    assert forall|j: int| 0 <= j < tree.len() implies tree.nodes@[j].parent != Some(idx) by {
        if 0 < j < idx {
            assert(tree.hangs(ch, j));
        }
    }
    let m = lists.children[slot as usize].len();
    let mut kids: Vec<usize> = Vec::new();
    let mut k: usize = 0;
    while k < m
        invariant
            lists.well_formed(),
            ch == lists.adjacency(),
            tree.consistent(ch, root),
            slot < ch.len(),
            m == ch[slot as int].len(),
            k <= m,
            idx == t0.len(),
            tree.len() > idx,
            tree.slot(idx as int) == slot,
            tree.nodes@[idx as int].parent == parent,
            tree.nodes@[idx as int].children@ == Seq::<usize>::empty(),
            tree.nodes@[idx as int].depth == depth,
            tree.nodes@[idx as int].number == number,
            t0.consistent(ch, root),
            forall|i: int| 0 <= i < idx ==> tree.nodes@[i] == t0.nodes@[i],
            forall|i: int|
                idx < i < tree.len() ==> {
                    let q = (#[trigger] tree.nodes@[i]).parent->0 as int;
                    idx <= q
                },
            tree.unmarked() < t0.unmarked(),
            t0.unmarked() == budget,
            visit_children(ch, tree.walk(), idx, slot, depth, k as nat) == visit_children(ch, w1, idx, slot, depth, 0),
            forall|v: int|
                0 <= v < ch.len() && (#[trigger] t0.index_of@[v]) is Some ==> tree.index_of@[v]
                    == t0.index_of@[v],
            forall|v: int|
                0 <= v < ch.len() && (#[trigger] tree.index_of@[v]) is Some && t0.index_of@[v] is None
                    && v != slot ==> finished(ch, tree.marks(), v),
            forall|j: int| 0 <= j < k ==> #[trigger] tree.marks()[ch[slot as int][j] as int],
            forall|a: int, b: int| 0 <= a < b < kids@.len() ==> kids@[a] < kids@[b],
            forall|a: int|
                0 <= a < kids@.len() ==> idx < #[trigger] kids@[a] < tree.len() && tree.nodes@[kids@[a] as int].parent
                    == Some(idx),
            forall|j: int|
                0 <= j < tree.len() && #[trigger] tree.nodes@[j].parent == Some(idx) ==> kids@.contains(
                    j as usize,
                ),
            forall|i: int| idx < i < tree.len() ==> #[trigger] tree.children_exact(i),
        decreases m - k,
    {
        let c = lists.children[slot as usize][k];
        assert(c == ch[slot as int][k as int]);
        if tree.index_of[c as usize].is_none() {
            let ghost t1 = *tree;
            let before = tree.nodes.len();
            proof {
                assert(ch[slot as int].contains(c));
                lemma_reach_step(ch, root, slot, c);
                assert(tree.nodes@[idx as int].depth <= idx);
                lemma_count_bound(tree.index_of@, |o: Option<usize>| is_some_index(o));
            }
            assert(tree.unmarked() < t0.unmarked());
            let ghost cur = tree.walk();
            grow(lists, c, Some(idx), depth + 1, k, tree, Ghost(root), Ghost(tree.unmarked()));
            let ghost kids_before = kids@;
            kids.push(before);
            assert(visit_children(ch, cur, idx, slot, depth, k as nat) == visit_children(ch, tree.walk(), idx, slot, depth, k as nat + 1));
            proof {
                assert forall|v: int|
                    0 <= v < ch.len() && (#[trigger] tree.index_of@[v]) is Some && t0.index_of@[v] is None
                        && v != slot implies finished(ch, tree.marks(), v) by {
                    if t1.index_of@[v] is Some {
                        assert(finished(ch, t1.marks(), v));
                        assert forall|j: int| 0 <= j < ch[v].len() implies #[trigger] tree.marks()[ch[v][j] as int] by {
                            assert(t1.marks()[ch[v][j] as int]);
                            assert(t1.index_of@[ch[v][j] as int] is Some);
                        }
                    }
                }
                assert forall|j: int| 0 <= j <= k implies #[trigger] tree.marks()[ch[slot as int][j] as int] by {
                    if j < k {
                        assert(t1.marks()[ch[slot as int][j] as int]);
                        assert(t1.index_of@[ch[slot as int][j] as int] is Some);
                    }
                }
                assert forall|j: int|
                    0 <= j < tree.len() && #[trigger] tree.nodes@[j].parent == Some(idx) implies kids@.contains(
                    j as usize,
                ) by {
                    if j < before {
                        assert(t1.nodes@[j].parent == Some(idx));
                        assert(kids_before.contains(j as usize));
                        let a = choose|a: int| 0 <= a < kids_before.len() && kids_before[a] == j as usize;
                        assert(kids@[a] == j as usize);
                    } else if j == before {
                        assert(kids@[kids@.len() - 1] == before);
                    } else {
                        assert(before <= tree.nodes@[j].parent->0);
                    }
                }
                assert forall|i: int| idx < i < tree.len() implies #[trigger] tree.children_exact(i) by {
                    if i < before {
                        assert(t1.children_exact(i));
                        assert(tree.nodes@[i] == t1.nodes@[i]);
                        assert forall|j: int|
                            0 <= j < tree.len() && #[trigger] tree.nodes@[j].parent == Some(i as usize) implies tree.nodes@[i].children@.contains(
                            j as usize,
                        ) by {
                            if j >= before {
                                if j > before {
                                    assert(before <= tree.nodes@[j].parent->0);
                                }
                            } else {
                                assert(t1.nodes@[j].parent == Some(i as usize));
                            }
                        }
                        assert forall|a: int|
                            0 <= a < tree.nodes@[i].children@.len() implies #[trigger] tree.nodes@[i].children@[a]
                            < tree.len() && tree.nodes@[tree.nodes@[i].children@[a] as int].parent
                            == Some(i as usize) by {
                            let x = t1.nodes@[i].children@[a];
                            assert(x < t1.len() && t1.nodes@[x as int].parent == Some(i as usize));
                        }
                    }
                }
            }
        } else {
            assert(tree.marks()[c as int]);
            assert(visit(ch, tree.walk(), c, Some(idx), (depth + 1) as u32, k) == tree.walk());
            assert(visit_children(ch, tree.walk(), idx, slot, depth, k as nat) == visit_children(ch, tree.walk(), idx, slot, depth, k as nat + 1));
        }
        k = k + 1;
    }
    assert(visit_children(ch, tree.walk(), idx, slot, depth, m as nat) == tree.walk());
    let ghost t2 = *tree;
    tree.nodes[idx].children = kids;
    assert(tree.visits() =~= t2.visits());
    proof {
        assert forall|i: int| 0 <= i < tree.len() && i != idx implies tree.nodes@[i] == t2.nodes@[i] by {}
        assert forall|i: int| 0 <= i < tree.len() implies tree.nodes@[i].parent == t2.nodes@[i].parent
            && tree.nodes@[i].slot == t2.nodes@[i].slot && tree.nodes@[i].depth == t2.nodes@[i].depth
            && tree.nodes@[i].number == t2.nodes@[i].number by {}
        assert(tree.consistent(ch, root)) by {
            assert forall|i: int| 0 < i < tree.len() implies #[trigger] tree.hangs(ch, i) by {
                assert(t2.hangs(ch, i));
            }
            assert forall|i: int|
                0 <= i < tree.len() implies #[trigger] tree.slot(i) < ch.len() && tree.index_of@[tree.slot(
                i,
            ) as int] == Some(i as usize) && tree.nodes@[i].depth <= i by {
                assert(t2.slot(i) < ch.len());
            }
            assert forall|v: int|
                0 <= v < ch.len() && (#[trigger] tree.index_of@[v]) is Some implies {
                    let i = tree.index_of@[v]->0 as int;
                    &&& i < tree.len()
                    &&& tree.slot(i) == v
                    &&& reachable(ch, root, v as u32)
                } by {
                assert(t2.index_of@[v] is Some);
            }
        }
        assert forall|i: int| idx <= i < tree.len() implies #[trigger] tree.children_exact(i) by {
            if i == idx {
                assert forall|j: int|
                    0 <= j < tree.len() && #[trigger] tree.nodes@[j].parent == Some(i as usize) implies tree.nodes@[i].children@.contains(
                    j as usize,
                ) by {
                    assert(t2.nodes@[j].parent == Some(idx));
                }
            } else {
                assert(t2.children_exact(i));
                assert forall|j: int|
                    0 <= j < tree.len() && #[trigger] tree.nodes@[j].parent == Some(i as usize) implies tree.nodes@[i].children@.contains(
                    j as usize,
                ) by {
                    assert(t2.nodes@[j].parent == Some(i as usize));
                }
                assert forall|a: int|
                    0 <= a < tree.nodes@[i].children@.len() implies #[trigger] tree.nodes@[i].children@[a]
                    < tree.len() && tree.nodes@[tree.nodes@[i].children@[a] as int].parent
                    == Some(i as usize) by {
                    let x = t2.nodes@[i].children@[a];
                    assert(x < t2.len() && t2.nodes@[x as int].parent == Some(i as usize));
                }
            }
        }
        assert(tree.marks() == t2.marks());
        assert(finished(ch, tree.marks(), slot as int));
        assert forall|v: int|
            0 <= v < ch.len() && (#[trigger] tree.index_of@[v]) is Some && t0.index_of@[v] is None
                implies finished(ch, tree.marks(), v) by {}
        assert forall|i: int|
            idx < i < tree.len() implies {
                let q = (#[trigger] tree.nodes@[i]).parent->0 as int;
                idx <= q
            } by {
            assert(tree.nodes@[i] == t2.nodes@[i]);
        }
    }
}

/// Builds the tree of the slots reachable from `root` along child links: a
/// depth-first walk that takes children in edge order and skips any slot
/// already in the tree, so a cycle cannot make it revisit a slot. A root
/// outside the slot range gives an empty tree.
pub fn build_tree(lists: &ChildLists, root: u32) -> (r: SlotTree)
    requires
        lists.well_formed(),
    ensures
        r.index_of@.len() == lists.slots(),
        root >= lists.slots() ==> r.nodes@.len() == 0 && forall|v: int|
            0 <= v < lists.slots() ==> (#[trigger] r.index_of@[v]) is None,
        root < lists.slots() ==> r.is_tree_of(lists.adjacency(), root),
        root < lists.slots() ==> r.visits() == dfs_walk(lists.adjacency(), root).visits,
{
    let ghost ch = lists.adjacency();
    let n = lists.children.len();
    let mut index_of: Vec<Option<usize>> = Vec::new();
    let mut v: usize = 0;
    while v < n
        invariant
            v <= n,
            index_of@.len() == v,
            forall|u: int| 0 <= u < v ==> (#[trigger] index_of@[u]) is None,
        decreases n - v,
    {
        index_of.push(None);
        v = v + 1;
    }
    let mut tree = SlotTree { nodes: Vec::new(), index_of };
    if (root as usize) >= n {
        return tree;
    }
    proof {
        crate::counting::lemma_count_empty(tree.index_of@, |o: Option<usize>| is_some_index(o));
        lemma_root_reachable(ch, root);
    }
    let ghost t0 = tree;
    assert(t0.visits() =~= Seq::<Visit>::empty());
    assert(t0.marks() =~= Seq::new(ch.len(), |i: int| false));
    assert(t0.walk() == Walk { visits: Seq::empty(), marks: Seq::new(ch.len(), |i: int| false) });
    grow(lists, root, None, 0, 0, &mut tree, Ghost(root), Ghost(t0.unmarked()));
    proof {
        assert forall|u: int| 0 <= u < tree.marks().len() && #[trigger] tree.marks()[u] implies finished(
            ch,
            tree.marks(),
            u,
        ) by {
            assert(tree.index_of@[u] is Some);
            assert(t0.index_of@[u] is None);
        }
        assert forall|u: int| 0 <= u < tree.marks().len() && #[trigger] tree.marks()[u] implies reachable(
            ch,
            root,
            u as u32,
        ) by {
            assert(tree.index_of@[u] is Some);
        }
        lemma_marks_are_reach(ch, root, tree.marks());
        assert forall|u: int| 0 <= u < ch.len() implies ((#[trigger] tree.index_of@[u]) is Some <==> reachable(
            ch,
            root,
            u as u32,
        )) by {
            assert(tree.marks()[u] == reach_flags(ch, root)[u]);
        }
    }
    tree
}

/// The tree a layout works on, with the children lists it was built from.
pub struct LayoutTree {
    pub lists: ChildLists,
    pub root: u32,
    pub tree: SlotTree,
}

/// Parses a containment edge array over `node_count` slots, picks the root
/// (`root` when given, else the automatic choice) and builds the tree from it.
/// `None` when the array has odd length or no pair in it names two distinct
/// slots below `node_count`.
pub fn layout_tree(node_count: usize, edges: &[u32], root: Option<u32>) -> (r: Option<LayoutTree>)
    requires
        node_count <= u32::MAX,
    ensures
        r is None <==> (edges@.len() % 2 == 1 || forall|v: int|
            0 <= v < node_count ==> !#[trigger] mentioned(
                node_count as nat,
                edges@,
                edges@.len() / 2,
                v as u32,
            )),
        r is Some ==> {
            let t = r->0;
            &&& t.lists.well_formed()
            &&& t.lists.describes(node_count as nat, edges@, edges@.len() / 2)
            &&& t.tree.index_of@.len() == node_count
            &&& root is Some ==> t.root == root->0
            &&& root is None ==> t.lists.is_auto_root(t.root)
            &&& t.root < node_count ==> t.tree.is_tree_of(t.lists.adjacency(), t.root)
            &&& t.root < node_count ==> t.tree.visits() == dfs_walk(t.lists.adjacency(), t.root).visits
            &&& t.root >= node_count ==> t.tree.nodes@.len() == 0 && forall|v: int|
                0 <= v < node_count ==> (#[trigger] t.tree.index_of@[v]) is None
        },
{
    let lists = match parse_tree_edges(node_count, edges) {
        Some(l) => l,
        None => return None,
    };
    let mut any = false;
    let mut v: usize = 0;
    while v < node_count
        invariant
            v <= node_count,
            lists.mentioned@.len() == node_count,
            any <==> exists|u: int| 0 <= u < v && #[trigger] lists.mentioned@[u],
        decreases node_count - v,
    {
        if lists.mentioned[v] {
            any = true;
        }
        v = v + 1;
    }
    if !any {
        assert forall|u: int| 0 <= u < node_count implies !#[trigger] mentioned(
            node_count as nat,
            edges@,
            edges@.len() / 2,
            u as u32,
        ) by {
            assert(!lists.mentioned@[u]);
        }
        return None;
    }
    let picked = select_root(&lists, root);
    let r = match picked {
        Some(x) => x,
        None => {
            assert(lists.any_mentioned());
            return None;
        },
    };
    let tree = build_tree(&lists, r);
    proof {
        let u = choose|u: int| 0 <= u < node_count && #[trigger] lists.mentioned@[u];
        assert(mentioned(node_count as nat, edges@, edges@.len() / 2, u as u32));
    }
    Some(LayoutTree { lists, root: r, tree })
}

} // verus!

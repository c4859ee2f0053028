//! Structural analyses of a finished call graph: inline candidates, weak
//! components and strongly connected components.

use vstd::prelude::*;
use vstd::seq_lib::lemma_seq_contains_after_push;
use crate::graph::CallGraph;

verus! {

/// How often `v` occurs in `row`.
pub open spec fn count_in(row: Seq<usize>, v: int) -> nat
    decreases row.len(),
{
    if row.len() == 0 {
        0
    } else {
        count_in(row.drop_last(), v) + if row.last() == v {
            1nat
        } else {
            0nat
        }
    }
}

/// The number of edges into `v`, every call site counted.
pub open spec fn incoming(succ: Seq<Vec<usize>>, v: int) -> nat
    decreases succ.len(),
{
    if succ.len() == 0 {
        0
    } else {
        incoming(succ.drop_last(), v) + count_in(succ.last()@, v)
    }
}

/// A count, capped at two.
pub open spec fn capped(n: nat) -> int {
    if n >= 2 {
        2
    } else {
        n as int
    }
}

/// Whether `idx` is strictly increasing.
pub open spec fn increasing(idx: Seq<usize>) -> bool {
    forall|a: int, b: int| 0 <= a < b < idx.len() ==> idx[a] < idx[b]
}

impl CallGraph {
    /// Whether node `v` is an inline candidate: exactly one edge enters it,
    /// multi-edges counted one by one, and that edge is no self-loop.
    pub open spec fn is_inline_candidate(&self, v: int) -> bool {
        incoming(self.succ@, v) == 1 && !self.succ[v]@.contains(v as usize)
    }

    /// For each node the number of edges into it, capped at two.
    pub fn incoming_counts(&self) -> (deg: Vec<u8>)
        requires
            self.wf(),
        ensures
            deg.len() == self.nodes.len(),
            forall|v: int|
                0 <= v < deg.len() ==> #[trigger] deg[v] as int == capped(incoming(self.succ@, v)),
    {
        let n = self.nodes.len();
        let mut deg: Vec<u8> = Vec::new();
        while deg.len() < n
            invariant
                deg.len() <= n,
                forall|v: int| 0 <= v < deg.len() ==> #[trigger] deg[v] == 0,
            decreases n - deg.len(),
        {
            deg.push(0u8);
        }
        let mut i: usize = 0;
        while i < n
            invariant
                self.wf(),
                n == self.nodes.len(),
                deg.len() == n,
                i <= n,
                forall|v: int|
                    0 <= v < n ==> #[trigger] deg[v] as int == capped(
                        incoming(self.succ@.take(i as int), v),
                    ),
            decreases n - i,
        {
            let row = &self.succ[i];
            let mut j: usize = 0;
            while j < row.len()
                invariant
                    self.wf(),
                    n == self.nodes.len(),
                    deg.len() == n,
                    i < n,
                    row == &self.succ[i as int],
                    j <= row.len(),
                    forall|v: int|
                        0 <= v < n ==> #[trigger] deg[v] as int == capped(
                            incoming(self.succ@.take(i as int), v) + count_in(
                                row@.take(j as int),
                                v,
                            ),
                        ),
                decreases row.len() - j,
            {
                let t = row[j];
                proof {
                    assert(row@.take(j + 1).drop_last() =~= row@.take(j as int));
                    assert(row@.take(j + 1).last() == t);
                }
                if deg[t] < 2 {
                    deg.set(t, deg[t] + 1);
                }
                j += 1;
            }
            proof {
                assert(row@.take(row.len() as int) =~= row@);
                assert(self.succ@.take(i + 1).drop_last() =~= self.succ@.take(i as int));
                assert(self.succ@.take(i + 1).last() == self.succ[i as int]);
            }
            i += 1;
        }
        assert(self.succ@.take(n as int) =~= self.succ@);
        deg
    }

    /// The inline candidates, in node order.
    pub fn inline_candidates(&self) -> (out: Vec<usize>)
        requires
            self.wf(),
        ensures
            increasing(out@),
            forall|k: int| 0 <= k < out.len() ==> #[trigger] out[k] < self.nodes.len(),
            forall|v: int|
                0 <= v < self.nodes.len() ==> (out@.contains(v as usize)
                    <==> #[trigger] self.is_inline_candidate(v)),
    {
        let deg = self.incoming_counts();
        let mut out: Vec<usize> = Vec::new();
        let mut v: usize = 0;
        while v < self.nodes.len()
            invariant
                self.wf(),
                deg.len() == self.nodes.len(),
                forall|w: int|
                    0 <= w < deg.len() ==> #[trigger] deg[w] as int == capped(
                        incoming(self.succ@, w),
                    ),
                v <= self.nodes.len(),
                increasing(out@),
                forall|k: int| 0 <= k < out.len() ==> #[trigger] out[k] < v,
                forall|w: int|
                    0 <= w < v ==> (out@.contains(w as usize)
                        <==> #[trigger] self.is_inline_candidate(w)),
            decreases self.nodes.len() - v,
        {
            let ghost prev = out@;
            if deg[v] == 1 && !row_contains(&self.succ[v], v) {
                out.push(v);
                proof {
                    assert(out@.last() == v);
                    assert forall|w: int| 0 <= w < v + 1 implies (out@.contains(w as usize)
                        <==> #[trigger] self.is_inline_candidate(w)) by {
                        if w < v {
                            if prev.contains(w as usize) {
                                let k = choose|k: int| 0 <= k < prev.len() && prev[k] == w as usize;
                                assert(out@[k] == w as usize);
                            }
                            if out@.contains(w as usize) {
                                let k = choose|k: int| 0 <= k < out@.len() && out@[k] == w as usize;
                                assert(prev[k] == w as usize);
                            }
                        }
                    }
                }
            } else {
                proof {
                    if out@.contains(v) {
                        let k = choose|k: int| 0 <= k < out@.len() && out@[k] == v;
                        assert(out[k] < v);
                    }
                }
            }
            v += 1;
        }
        out
    }

}

/// Whether `p` is a walk along `edges`: a non-empty sequence of nodes, each
/// joined to the next by an edge.
pub open spec fn is_walk(edges: Seq<(usize, usize)>, p: Seq<usize>) -> bool {
    p.len() >= 1 && forall|k: int|
        0 <= k < p.len() - 1 ==> edges.contains((#[trigger] p[k], p[k + 1]))
}

/// Whether a walk along `edges` leads from `a` to `b`. Every node reaches
/// itself.
pub open spec fn reaches(edges: Seq<(usize, usize)>, a: usize, b: usize) -> bool {
    exists|p: Seq<usize>| #[trigger] is_walk(edges, p) && p.first() == a && p.last() == b
}

/// Whether each of `a` and `b` reaches the other.
pub open spec fn mutually_reachable(edges: Seq<(usize, usize)>, a: usize, b: usize) -> bool {
    reaches(edges, a, b) && reaches(edges, b, a)
}

/// Whether `comps` splits the nodes `0..n` into components: every entry is a
/// node, every node is an entry, and no node is an entry twice.
pub open spec fn is_partition(comps: Seq<Vec<usize>>, n: nat) -> bool {
    &&& forall|c: int, k: int|
        0 <= c < comps.len() && 0 <= k < comps[c].len() ==> (#[trigger] comps[c][k]) < n
    &&& forall|v: usize| v < n ==> #[trigger] same_component(comps, v, v)
    &&& forall|c1: int, k1: int, c2: int, k2: int|
        0 <= c1 < comps.len() && 0 <= k1 < comps[c1].len() && 0 <= c2 < comps.len() && 0 <= k2
            < comps[c2].len() && #[trigger] comps[c1][k1] == #[trigger] comps[c2][k2] ==> c1 == c2
            && k1 == k2
}

/// Whether one component of `comps` holds both `a` and `b`.
pub open spec fn same_component(comps: Seq<Vec<usize>>, a: usize, b: usize) -> bool {
    exists|c: int|
        0 <= c < comps.len() && (#[trigger] comps[c])@.contains(a) && comps[c]@.contains(b)
}

/// Calls `petgraph::algo::kosaraju_scc` on the directed graph whose nodes
/// are `0..n`, added in that order, and whose edges are `edges`, added in
/// that order, and hands back each component as node indices.
///
/// Trusted: the result is the set of strongly connected components of that
/// graph. Every node stands in exactly one component, and two nodes stand in
/// the same component exactly if each reaches the other.
#[verifier::external_body]
fn kosaraju_components(n: usize, edges: &Vec<(usize, usize)>) -> (comps: Vec<Vec<usize>>)
    requires
        forall|k: int| 0 <= k < edges.len() ==> (#[trigger] edges[k]).0 < n && edges[k].1 < n,
    ensures
        is_partition(comps@, n as nat),
        forall|a: usize, b: usize|
            a < n && b < n ==> (#[trigger] same_component(comps@, a, b) <==> mutually_reachable(
                edges@,
                a,
                b,
            )),
{
    let mut g: petgraph::Graph<(), (), petgraph::Directed, usize> = Default::default();
    for _ in 0..n {
        g.add_node(());
    }
    for e in edges.iter() {
        g.add_edge(petgraph::graph::NodeIndex::new(e.0), petgraph::graph::NodeIndex::new(e.1), ());
    }
    petgraph::algo::kosaraju_scc(&g).into_iter().map(
        |c| c.into_iter().map(|x| x.index()).collect(),
    ).collect()
}

/// The edges that leave node `a`, one per entry of its row.
pub open spec fn row_edges(a: usize, row: Seq<usize>) -> Seq<(usize, usize)> {
    Seq::new(row.len(), |j: int| (a, row[j]))
}

/// The edges that leave the first `i` nodes, node by node.
pub open spec fn edges_upto(succ: Seq<Vec<usize>>, i: nat) -> Seq<(usize, usize)>
    decreases i,
{
    if i == 0 {
        Seq::empty()
    } else {
        edges_upto(succ, (i - 1) as nat) + row_edges((i - 1) as usize, succ[i - 1]@)
    }
}

impl CallGraph {
    /// Whether node `a` calls node `b`.
    pub open spec fn has_edge(&self, a: usize, b: usize) -> bool {
        a < self.succ.len() && self.succ[a as int]@.contains(b)
    }

    /// Edges between nodes are calls between names: node `a` calls node `b`
    /// exactly if the name of `b` occurs in the outgoing sequence that the
    /// mapping holds for the name of `a`.
    pub proof fn lemma_edge_names(&self, a: usize, b: usize)
        requires
            self.wf(),
            a < self.nodes.len(),
            b < self.nodes.len(),
        ensures
            self.has_edge(a, b) <==> self@[self.nodes[a as int]@].contains(self.nodes[b as int]@),
    {
        self.lemma_view_at(a as int);
        let row = self.succ[a as int]@;
        let names = self.out_names(a as int);
        if self.has_edge(a, b) {
            let j = choose|j: int| 0 <= j < row.len() && row[j] == b;
            assert(names[j] == self.nodes[b as int]@);
        }
        if names.contains(self.nodes[b as int]@) {
            let j = choose|j: int| 0 <= j < names.len() && names[j] == self.nodes[b as int]@;
            assert(self.succ[a as int][j] < self.nodes.len());
            assert(self.nodes[row[j] as int]@ == self.nodes[b as int]@);
            assert(row[j] == b);
        }
    }

    /// Whether `edges` holds exactly the edges of the graph.
    pub open spec fn edges_are(&self, edges: Seq<(usize, usize)>) -> bool {
        forall|a: usize, b: usize| #[trigger] edges.contains((a, b)) <==> self.has_edge(a, b)
    }

    /// The edges of the graph: one pair for every call site, grouped by
    /// calling node in node order and in call-site order within a node.
    pub fn edge_list(&self) -> (edges: Vec<(usize, usize)>)
        requires
            self.wf(),
        ensures
            edges@ == edges_upto(self.succ@, self.succ.len() as nat),
            self.edges_are(edges@),
            forall|k: int|
                0 <= k < edges.len() ==> (#[trigger] edges[k]).0 < self.nodes.len() && edges[k].1
                    < self.nodes.len(),
    {
        let n = self.nodes.len();
        let mut edges: Vec<(usize, usize)> = Vec::new();
        let mut i: usize = 0;
        while i < n
            invariant
                self.wf(),
                n == self.nodes.len(),
                i <= n,
                edges@ == edges_upto(self.succ@, i as nat),
                forall|k: int|
                    0 <= k < edges.len() ==> (#[trigger] edges[k]).0 < n && edges[k].1 < n,
                forall|a: usize, b: usize| #[trigger]
                    edges@.contains((a, b)) <==> (a < i && self.has_edge(a, b)),
            decreases n - i,
        {
            let row = &self.succ[i];
            let mut j: usize = 0;
            assert(row@.take(0) =~= Seq::<usize>::empty());
            assert(edges@ =~= edges_upto(self.succ@, i as nat) + row_edges(i, row@.take(0)));
            while j < row.len()
                invariant
                    self.wf(),
                    n == self.nodes.len(),
                    i < n,
                    row == &self.succ[i as int],
                    j <= row.len(),
                    edges@ == edges_upto(self.succ@, i as nat) + row_edges(
                        i,
                        row@.take(j as int),
                    ),
                    forall|k: int|
                        0 <= k < edges.len() ==> (#[trigger] edges[k]).0 < n && edges[k].1 < n,
                    forall|a: usize, b: usize| #[trigger]
                        edges@.contains((a, b)) <==> ((a < i && self.has_edge(a, b)) || (a == i
                            && row@.take(j as int).contains(b))),
                decreases row.len() - j,
            {
                let t = row[j];
                let ghost prev = edges@;
                edges.push((i, t));
                proof {
                    assert(row@.take(j + 1) =~= row@.take(j as int).push(t));
                    assert(row_edges(i, row@.take(j + 1)) =~= row_edges(i, row@.take(j as int)).push(
                        (i, t),
                    ));
                    assert(edges@ =~= edges_upto(self.succ@, i as nat) + row_edges(
                        i,
                        row@.take(j + 1),
                    ));
                    assert forall|a: usize, b: usize| #[trigger]
                        edges@.contains((a, b)) <==> ((a < i && self.has_edge(a, b)) || (a == i
                            && row@.take(j + 1).contains(b))) by {
                        lemma_seq_contains_after_push(prev, (i, t), (a, b));
                        lemma_seq_contains_after_push(row@.take(j as int), t, b);
                    }
                }
                j += 1;
            }
            assert(row@.take(row.len() as int) =~= row@);
            i += 1;
        }
        edges
    }

    /// Whether `p` is a path of the graph: a non-empty sequence of nodes,
    /// each of which calls the next.
    pub open spec fn is_path(&self, p: Seq<usize>) -> bool {
        p.len() >= 1 && forall|k: int|
            0 <= k < p.len() - 1 ==> self.has_edge(#[trigger] p[k], p[k + 1])
    }

    /// Whether a path of the graph leads from `a` to `b`. Every node reaches
    /// itself.
    pub open spec fn connects(&self, a: usize, b: usize) -> bool {
        exists|p: Seq<usize>| #[trigger] self.is_path(p) && p.first() == a && p.last() == b
    }

    /// Whether each of `a` and `b` reaches the other along directed edges.
    pub open spec fn strongly_connected(&self, a: usize, b: usize) -> bool {
        self.connects(a, b) && self.connects(b, a)
    }

    /// Reaching along a list of exactly the graph's edges is reaching in the
    /// graph.
    pub proof fn lemma_reaches(&self, edges: Seq<(usize, usize)>, a: usize, b: usize)
        requires
            self.edges_are(edges),
        ensures
            reaches(edges, a, b) <==> self.connects(a, b),
    {
        assert forall|p: Seq<usize>| #[trigger] is_walk(edges, p) <==> self.is_path(p) by {
            if is_walk(edges, p) {
                assert forall|k: int| 0 <= k < p.len() - 1 implies self.has_edge(
                    #[trigger] p[k],
                    p[k + 1],
                ) by {
                    assert(edges.contains((p[k], p[k + 1])));
                }
            }
            if self.is_path(p) {
                assert forall|k: int| 0 <= k < p.len() - 1 implies edges.contains(
                    (#[trigger] p[k], p[k + 1]),
                ) by {
                    assert(self.has_edge(p[k], p[k + 1]));
                }
            }
        }
        if reaches(edges, a, b) {
            let p = choose|p: Seq<usize>| #[trigger]
                is_walk(edges, p) && p.first() == a && p.last() == b;
            assert(self.is_path(p));
        }
        if self.connects(a, b) {
            let p = choose|p: Seq<usize>| #[trigger]
                self.is_path(p) && p.first() == a && p.last() == b;
            assert(is_walk(edges, p));
        }
    }

    /// The strongly connected components of the graph, by Kosaraju's
    /// algorithm. The components partition the nodes, and two nodes share a
    /// component exactly if each reaches the other along directed edges. A
    /// node that no cycle passes through is a component of its own, whether
    /// or not it calls itself.
    pub fn strongly_connected_components(&self) -> (comps: Vec<Vec<usize>>)
        requires
            self.wf(),
        ensures
            is_partition(comps@, self.nodes.len() as nat),
            forall|a: usize, b: usize|
                a < self.nodes.len() && b < self.nodes.len() ==> (#[trigger] same_component(
                    comps@,
                    a,
                    b,
                ) <==> self.strongly_connected(a, b)),
    {
        let edges = self.edge_list();
        let comps = kosaraju_components(self.nodes.len(), &edges);
        proof {
            assert forall|a: usize, b: usize|
                a < self.nodes.len() && b < self.nodes.len() implies (#[trigger] same_component(
                comps@,
                a,
                b,
            ) <==> self.strongly_connected(a, b)) by {
                self.lemma_reaches(edges@, a, b);
                self.lemma_reaches(edges@, b, a);
            }
        }
        comps
    }
}

/// How many entries of `v` are `false`.
pub open spec fn count_false(v: Seq<bool>) -> nat
    decreases v.len(),
{
    if v.len() == 0 {
        0
    } else {
        count_false(v.drop_last()) + if v.last() {
            0nat
        } else {
            1nat
        }
    }
}

/// Setting a `false` entry to `true` leaves one `false` entry fewer.
pub proof fn lemma_count_false_update(v: Seq<bool>, w: int)
    requires
        0 <= w < v.len(),
        !v[w],
    ensures
        count_false(v.update(w, true)) + 1 == count_false(v),
    decreases v.len(),
{
    if w == v.len() - 1 {
        assert(v.update(w, true).drop_last() =~= v.drop_last());
    } else {
        lemma_count_false_update(v.drop_last(), w);
        assert(v.update(w, true).drop_last() =~= v.drop_last().update(w, true));
    }
}

/// The components after one more is added.
pub proof fn lemma_same_component_push(comps: Seq<Vec<usize>>, cur: Vec<usize>, a: usize, b: usize)
    ensures
        same_component(comps.push(cur), a, b) <==> (same_component(comps, a, b) || (
        cur@.contains(a) && cur@.contains(b))),
{
    let next = comps.push(cur);
    if same_component(comps, a, b) {
        let c = choose|c: int|
            0 <= c < comps.len() && (#[trigger] comps[c])@.contains(a) && comps[c]@.contains(b);
        assert(next[c] == comps[c]);
    }
    if cur@.contains(a) && cur@.contains(b) {
        assert(next[comps.len() as int] == cur);
    }
    if same_component(next, a, b) {
        let c = choose|c: int|
            0 <= c < next.len() && (#[trigger] next[c])@.contains(a) && next[c]@.contains(b);
        if c < comps.len() {
            assert(comps[c] == next[c]);
        }
    }
}

impl CallGraph {
    /// Whether an edge joins `a` and `b`, in either direction.
    pub open spec fn linked(&self, a: usize, b: usize) -> bool {
        self.has_edge(a, b) || self.has_edge(b, a)
    }

    /// Whether `p` is a chain: a non-empty sequence of nodes, each joined to
    /// the next by an edge in either direction.
    pub open spec fn is_chain(&self, p: Seq<usize>) -> bool {
        p.len() >= 1 && forall|k: int|
            0 <= k < p.len() - 1 ==> self.linked(#[trigger] p[k], p[k + 1])
    }

    /// Whether a chain leads from `a` to `b`. Every node is weakly connected
    /// to itself.
    pub open spec fn weakly_connected(&self, a: usize, b: usize) -> bool {
        exists|p: Seq<usize>| #[trigger] self.is_chain(p) && p.first() == a && p.last() == b
    }

    /// Whether every node joined by an edge to a member of `comp` is a
    /// member too.
    pub open spec fn closed_under_links(&self, comp: Seq<usize>) -> bool {
        forall|a: usize, b: usize|
            comp.contains(a) && #[trigger] self.linked(a, b) && b < self.nodes.len()
                ==> comp.contains(b)
    }

    /// Whether `comp` is not empty and a chain leads from its first member to
    /// every member.
    pub open spec fn chained_to_first(&self, comp: Seq<usize>) -> bool {
        comp.len() >= 1 && forall|k: int|
            0 <= k < comp.len() ==> self.weakly_connected(comp[0], #[trigger] comp[k])
    }

    /// A node is weakly connected to itself.
    pub proof fn lemma_chain_start(&self, a: usize)
        ensures
            self.weakly_connected(a, a),
    {
        let p = seq![a];
        assert(self.is_chain(p));
        assert(p.first() == a && p.last() == a);
    }

    /// A chain from `a` to `u` and an edge between `u` and `w` make a chain
    /// from `a` to `w`.
    pub proof fn lemma_chain_extend(&self, a: usize, u: usize, w: usize)
        requires
            self.weakly_connected(a, u),
            self.linked(u, w),
        ensures
            self.weakly_connected(a, w),
    {
        let p = choose|p: Seq<usize>| #[trigger] self.is_chain(p) && p.first() == a && p.last() == u;
        let q = p.push(w);
        assert forall|k: int| 0 <= k < q.len() - 1 implies self.linked(#[trigger] q[k], q[k + 1]) by {
            if k < p.len() - 1 {
                assert(self.linked(p[k], p[k + 1]));
            }
        }
        assert(self.is_chain(q));
        assert(q.first() == a && q.last() == w);
    }

    /// Weak connection is symmetric.
    pub proof fn lemma_chain_symmetric(&self, a: usize, b: usize)
        requires
            self.weakly_connected(a, b),
        ensures
            self.weakly_connected(b, a),
    {
        let p = choose|p: Seq<usize>| #[trigger] self.is_chain(p) && p.first() == a && p.last() == b;
        let q = Seq::new(p.len(), |i: int| p[p.len() - 1 - i]);
        assert forall|k: int| 0 <= k < q.len() - 1 implies self.linked(#[trigger] q[k], q[k + 1]) by {
            let t = p.len() - 2 - k;
            assert(self.linked(p[t], p[t + 1]));
        }
        assert(self.is_chain(q));
        assert(q.first() == b && q.last() == a);
    }

    /// Weak connection is transitive.
    pub proof fn lemma_chain_transitive(&self, a: usize, b: usize, c: usize)
        requires
            self.weakly_connected(a, b),
            self.weakly_connected(b, c),
        ensures
            self.weakly_connected(a, c),
    {
        let p = choose|p: Seq<usize>| #[trigger] self.is_chain(p) && p.first() == a && p.last() == b;
        let q = choose|q: Seq<usize>| #[trigger] self.is_chain(q) && q.first() == b && q.last() == c;
        let r = p.drop_last() + q;
        let m = p.len() - 1;
        assert forall|k: int| 0 <= k < r.len() - 1 implies self.linked(#[trigger] r[k], r[k + 1]) by {
            if k < m - 1 {
                assert(self.linked(p[k], p[k + 1]));
            } else if k == m - 1 {
                assert(self.linked(p[k], p[k + 1]));
                assert(r[k + 1] == q[0]);
            } else {
                assert(self.linked(q[k - m], q[k - m + 1]));
            }
        }
        assert(self.is_chain(r));
        assert(r.first() == a && r.last() == c);
    }

    /// A chain that starts in a set of nodes closed under edges stays in it.
    pub proof fn lemma_chain_stays(&self, comp: Seq<usize>, p: Seq<usize>, k: int)
        requires
            self.wf(),
            self.closed_under_links(comp),
            self.is_chain(p),
            comp.contains(p[0]),
            0 <= k < p.len(),
        ensures
            comp.contains(p[k]),
        decreases k,
    {
        if k > 0 {
            self.lemma_chain_stays(comp, p, k - 1);
            assert(self.linked(p[k - 1], p[k - 1 + 1]));
            if self.has_edge(p[k - 1], p[k]) {
                let row = self.succ[p[k - 1] as int]@;
                let j = choose|j: int| 0 <= j < row.len() && row[j] == p[k];
                assert(self.succ[p[k - 1] as int][j] < self.nodes.len());
            }
        }
    }

    /// The law of weak components: where components partition the nodes,
    /// each closed under edges and chained to its first member, two nodes
    /// share a component exactly if a chain of edges, taken in either
    /// direction, leads from one to the other.
    pub proof fn lemma_weak_components(&self, comps: Seq<Vec<usize>>, a: usize, b: usize)
        requires
            self.wf(),
            is_partition(comps, self.nodes.len() as nat),
            forall|c: int|
                0 <= c < comps.len() ==> self.closed_under_links((#[trigger] comps[c])@)
                    && self.chained_to_first(comps[c]@),
            a < self.nodes.len(),
            b < self.nodes.len(),
        ensures
            same_component(comps, a, b) <==> self.weakly_connected(a, b),
    {
        if same_component(comps, a, b) {
            let c = choose|c: int|
                0 <= c < comps.len() && (#[trigger] comps[c])@.contains(a) && comps[c]@.contains(b);
            let comp = comps[c]@;
            let ka = choose|k: int| 0 <= k < comp.len() && comp[k] == a;
            let kb = choose|k: int| 0 <= k < comp.len() && comp[k] == b;
            assert(self.chained_to_first(comp));
            assert(self.weakly_connected(comp[0], comp[ka]));
            assert(self.weakly_connected(comp[0], comp[kb]));
            self.lemma_chain_symmetric(comp[0], a);
            self.lemma_chain_transitive(a, comp[0], b);
        }
        if self.weakly_connected(a, b) {
            let p = choose|p: Seq<usize>| #[trigger]
                self.is_chain(p) && p.first() == a && p.last() == b;
            assert(same_component(comps, a, a));
            let c = choose|c: int|
                0 <= c < comps.len() && (#[trigger] comps[c])@.contains(a) && comps[c]@.contains(a);
            assert(self.closed_under_links(comps[c]@));
            self.lemma_chain_stays(comps[c]@, p, p.len() - 1);
        }
    }

    /// The state of a traversal: `comps` holds the finished components,
    /// `cur` the one being collected, and `visited` marks the members of both.
    pub open spec fn traversal(
        &self,
        comps: Seq<Vec<usize>>,
        visited: Seq<bool>,
        cur: Seq<usize>,
    ) -> bool {
        let n = self.nodes.len();
        &&& visited.len() == n
        &&& forall|k: int| 0 <= k < cur.len() ==> (#[trigger] cur[k]) < n
        &&& forall|v: usize|
            v < n ==> (#[trigger] visited[v as int] <==> (same_component(comps, v, v)
                || cur.contains(v)))
        &&& forall|k1: int, k2: int|
            0 <= k1 < cur.len() && 0 <= k2 < cur.len() && #[trigger] cur[k1] == #[trigger] cur[k2]
                ==> k1 == k2
        &&& forall|k: int| 0 <= k < cur.len() ==> !same_component(comps, #[trigger] cur[k], cur[k])
        &&& self.chained_to_first(cur)
    }

    /// Adds the unvisited node `w`, joined by an edge to the member `u`, to
    /// the component being collected.
    fn visit(
        &self,
        w: usize,
        visited: &mut Vec<bool>,
        cur: &mut Vec<usize>,
        Ghost(u): Ghost<usize>,
        Ghost(comps): Ghost<Seq<Vec<usize>>>,
    )
        requires
            self.traversal(comps, old(visited)@, old(cur)@),
            w < self.nodes.len(),
            !old(visited)[w as int],
            old(cur)@.contains(u),
            self.linked(u, w),
        ensures
            self.traversal(comps, final(visited)@, final(cur)@),
            final(cur)@ == old(cur)@.push(w),
            final(visited)@ == old(visited)@.update(w as int, true),
            count_false(final(visited)@) + 1 == count_false(old(visited)@),
    {
        let ghost v0 = visited@;
        let ghost c0 = cur@;
        proof {
            lemma_count_false_update(v0, w as int);
            let ku = choose|k: int| 0 <= k < c0.len() && c0[k] == u;
            assert(self.weakly_connected(c0[0], c0[ku]));
            self.lemma_chain_extend(c0[0], u, w);
        }
        visited.set(w, true);
        cur.push(w);
        proof {
            assert forall|v: usize| v < self.nodes.len() implies (#[trigger] visited@[v as int] <==> (
            same_component(comps, v, v) || cur@.contains(v))) by {
                lemma_seq_contains_after_push(c0, w, v);
                assert(v0[v as int] <==> (same_component(comps, v, v) || c0.contains(v)));
            }
            assert(!c0.contains(w) && !same_component(comps, w, w)) by {
                assert(v0[w as int] <==> (same_component(comps, w, w) || c0.contains(w)));
            }
            assert forall|k1: int, k2: int|
                0 <= k1 < cur@.len() && 0 <= k2 < cur@.len() && #[trigger] cur@[k1]
                    == #[trigger] cur@[k2] implies k1 == k2 by {
                if k1 < c0.len() && k2 < c0.len() {
                    assert(c0[k1] == c0[k2]);
                } else if k1 < c0.len() {
                    assert(c0[k1] == w);
                } else if k2 < c0.len() {
                    assert(c0[k2] == w);
                }
            }
            assert forall|k: int| 0 <= k < cur@.len() implies !same_component(
                comps,
                #[trigger] cur@[k],
                cur@[k],
            ) by {
                if k < c0.len() {
                    assert(cur@[k] == c0[k]);
                }
            }
            assert forall|k: int| 0 <= k < cur@.len() implies self.weakly_connected(
                cur@[0],
                #[trigger] cur@[k],
            ) by {
                if k < c0.len() {
                    assert(cur@[k] == c0[k]);
                    assert(self.weakly_connected(c0[0], c0[k]));
                }
            }
        }
    }
}

impl CallGraph {
    /// Whether `comps` are finished components and `visited` marks exactly
    /// their members.
    pub open spec fn collected(&self, comps: Seq<Vec<usize>>, visited: Seq<bool>) -> bool {
        let n = self.nodes.len();
        &&& visited.len() == n
        &&& forall|c: int, k: int|
            0 <= c < comps.len() && 0 <= k < comps[c].len() ==> (#[trigger] comps[c][k]) < n
        &&& forall|v: usize|
            v < n ==> (#[trigger] visited[v as int] <==> same_component(comps, v, v))
        &&& forall|c1: int, k1: int, c2: int, k2: int|
            0 <= c1 < comps.len() && 0 <= k1 < comps[c1].len() && 0 <= c2 < comps.len() && 0
                <= k2 < comps[c2].len() && #[trigger] comps[c1][k1] == #[trigger] comps[c2][k2]
                ==> c1 == c2 && k1 == k2
        &&& forall|c: int|
            0 <= c < comps.len() ==> self.closed_under_links((#[trigger] comps[c])@)
                && self.chained_to_first(comps[c]@)
    }

    /// A finished traversal adds its component to the finished ones.
    proof fn lemma_component_done(
        &self,
        comps: Seq<Vec<usize>>,
        before: Seq<bool>,
        visited: Seq<bool>,
        cur: Vec<usize>,
    )
        requires
            self.wf(),
            self.collected(comps, before),
            self.traversal(comps, visited, cur@),
            forall|k: int, b: usize|
                0 <= k < cur@.len() && b < self.nodes.len() && #[trigger] self.linked(cur@[k], b)
                    ==> visited[b as int],
        ensures
            self.collected(comps.push(cur), visited),
    {
        let next = comps.push(cur);
        let n = self.nodes.len();
        assert forall|c: int, k: int| 0 <= c < next.len() && 0 <= k < next[c].len() implies (
        #[trigger] next[c][k]) < n by {
            if c < comps.len() {
                assert(next[c][k] == comps[c][k]);
            }
        }
        assert forall|v: usize| v < n implies (#[trigger] visited[v as int] <==> same_component(
            next,
            v,
            v,
        )) by {
            lemma_same_component_push(comps, cur, v, v);
        }
        assert forall|c1: int, k1: int, c2: int, k2: int|
            0 <= c1 < next.len() && 0 <= k1 < next[c1].len() && 0 <= c2 < next.len() && 0 <= k2
                < next[c2].len() && #[trigger] next[c1][k1] == #[trigger] next[c2][k2] implies c1
            == c2 && k1 == k2 by {
            if c1 < comps.len() && c2 < comps.len() {
                assert(comps[c1][k1] == comps[c2][k2]);
            } else if c1 < comps.len() {
                assert(comps[c1]@.contains(comps[c1]@[k1]));
                assert(same_component(comps, cur@[k2], cur@[k2]));
            } else if c2 < comps.len() {
                assert(comps[c2]@.contains(comps[c2]@[k2]));
                assert(same_component(comps, cur@[k1], cur@[k1]));
            } else {
                assert(cur@[k1] == cur@[k2]);
            }
        }
        assert forall|a: usize, b: usize|
            cur@.contains(a) && #[trigger] self.linked(a, b) && b < n implies cur@.contains(b) by {
            let k = choose|k: int| 0 <= k < cur@.len() && cur@[k] == a;
            assert(self.linked(cur@[k], b));
            assert(visited[b as int]);
            if same_component(comps, b, b) {
                let c = choose|c: int|
                    0 <= c < comps.len() && (#[trigger] comps[c])@.contains(b) && comps[c]@.contains(
                        b,
                    );
                assert(self.closed_under_links(comps[c]@));
                assert(self.linked(b, a));
                assert(comps[c]@.contains(a));
                assert(same_component(comps, cur@[k], cur@[k]));
            }
        }
        assert forall|c: int| 0 <= c < next.len() implies self.closed_under_links(
            (#[trigger] next[c])@,
        ) && self.chained_to_first(next[c]@) by {
            if c < comps.len() {
                assert(next[c] == comps[c]);
            }
        }
    }

    /// The weak components of the graph, each collected by a breadth-first
    /// traversal that follows edges in both directions, started at the first
    /// node that no earlier component holds. The components partition the
    /// nodes, and two nodes share a component exactly if a chain of edges,
    /// taken in either direction, leads from one to the other.
    #[verifier::loop_isolation(false)]
    pub fn graph_components(&self) -> (comps: Vec<Vec<usize>>)
        requires
            self.wf(),
        ensures
            is_partition(comps@, self.nodes.len() as nat),
            forall|c: int|
                0 <= c < comps.len() ==> self.closed_under_links((#[trigger] comps[c])@)
                    && self.chained_to_first(comps[c]@),
            forall|a: usize, b: usize|
                a < self.nodes.len() && b < self.nodes.len() ==> (#[trigger] same_component(
                    comps@,
                    a,
                    b,
                ) <==> self.weakly_connected(a, b)),
    {
        let n = self.nodes.len();
        let edges = self.edge_list();
        let mut visited: Vec<bool> = Vec::new();
        while visited.len() < n
            invariant
                visited.len() <= n,
                forall|v: int| 0 <= v < visited.len() ==> !(#[trigger] visited[v]),
            decreases n - visited.len(),
        {
            visited.push(false);
        }
        let mut comps: Vec<Vec<usize>> = Vec::new();
        let mut s: usize = 0;
        proof {
            assert forall|v: usize| v < n implies !same_component(comps@, v, v) by {}
        }
        while s < n
            invariant
                s <= n,
                self.collected(comps@, visited@),
                forall|v: int| 0 <= v < s ==> #[trigger] visited[v],
            decreases n - s,
        {
            if !visited[s] {
                let ghost before = visited@;
                let mut cur: Vec<usize> = Vec::new();
                cur.push(s);
                visited.set(s, true);
                proof {
                    self.lemma_chain_start(s);
                    assert(cur@[0] == s);
                    assert forall|v: usize| v < n implies (#[trigger] visited@[v as int] <==> (
                    same_component(comps@, v, v) || cur@.contains(v))) by {
                        assert(before[v as int] <==> same_component(comps@, v, v));
                    }
                    assert(self.traversal(comps@, visited@, cur@));
                }
                let mut h: usize = 0;
                while h < cur.len()
                    invariant
                        h <= cur.len(),
                        self.traversal(comps@, visited@, cur@),
                        forall|v: int| 0 <= v <= s ==> #[trigger] visited[v],
                        forall|k: int, b: usize|
                            0 <= k < h && b < n && #[trigger] self.linked(cur@[k], b)
                                ==> visited[b as int],
                    decreases count_false(visited@) + cur.len() - h,
                {
                    let u = cur[h];
                    let ghost total = count_false(visited@) + cur.len();
                    let mut e: usize = 0;
                    while e < edges.len()
                        invariant
                            e <= edges.len(),
                            h < cur.len(),
                            cur@[h as int] == u,
                            self.traversal(comps@, visited@, cur@),
                            count_false(visited@) + cur.len() == total,
                            forall|v: int| 0 <= v <= s ==> #[trigger] visited[v],
                            forall|k: int, b: usize|
                                0 <= k < h && b < n && #[trigger] self.linked(cur@[k], b)
                                    ==> visited[b as int],
                            forall|t: int|
                                0 <= t < e ==> ((#[trigger] edges[t]).0 == u ==> visited[edges[t].1 as int])
                                    && (edges[t].1 == u ==> visited[edges[t].0 as int]),
                        decreases edges.len() - e,
                    {
                        let x = edges[e].0;
                        let y = edges[e].1;
                        proof {
                            assert(edges@.contains((x, y))) by {
                                assert(edges@[e as int] == (x, y));
                            }
                            assert(self.has_edge(x, y));
                        }
                        if x == u && !visited[y] {
                            self.visit(y, &mut visited, &mut cur, Ghost(u), Ghost(comps@));
                        }
                        if y == u && !visited[x] {
                            self.visit(x, &mut visited, &mut cur, Ghost(u), Ghost(comps@));
                        }
                        e += 1;
                    }
                    proof {
                        assert forall|b: usize| b < n && self.linked(u, b) implies visited[b as int] by {
                            if self.has_edge(u, b) {
                                assert(edges@.contains((u, b)));
                                let t = choose|t: int| 0 <= t < edges@.len() && edges@[t] == (u, b);
                                assert(edges[t].0 == u);
                            } else {
                                assert(edges@.contains((b, u)));
                                let t = choose|t: int| 0 <= t < edges@.len() && edges@[t] == (b, u);
                                assert(edges[t].1 == u);
                            }
                        }
                    }
                    h += 1;
                }
                proof {
                    self.lemma_component_done(comps@, before, visited@, cur);
                }
                comps.push(cur);
            }
            s += 1;
        }
        proof {
            assert forall|v: usize| v < n implies #[trigger] same_component(comps@, v, v) by {
                assert(visited[v as int]);
            }
            assert forall|a: usize, b: usize| a < n && b < n implies (#[trigger] same_component(
                comps@,
                a,
                b,
            ) <==> self.weakly_connected(a, b)) by {
                self.lemma_weak_components(comps@, a, b);
            }
        }
        comps
    }
}

/// Whether `v` occurs in `row`.
pub fn row_contains(row: &Vec<usize>, v: usize) -> (b: bool)
    ensures
        b == row@.contains(v),
{
    let mut j: usize = 0;
    while j < row.len()
        invariant
            j <= row.len(),
            forall|k: int| 0 <= k < j ==> row[k] != v,
        decreases row.len() - j,
    {
        if row[j] == v {
            return true;
        }
        j += 1;
    }
    false
}

} // verus!

//! The call graph: its nodes in insertion order, and for each node the
//! ordered sequence of nodes it calls.

use vstd::prelude::*;
use crate::walk::{names_of, Name};

verus! {

/// A call graph. Node `i` is named `nodes[i]`, and `succ[i]` lists, one entry
/// per call site and in call-site order, the indices of the nodes it calls.
#[derive(Debug)]
pub struct CallGraph {
    pub nodes: Vec<String>,
    pub succ: Vec<Vec<usize>>,
}

/// Whether some element of `nodes` is named `k`.
pub open spec fn has_name(nodes: Seq<String>, k: Name) -> bool {
    exists|i: int| 0 <= i < nodes.len() && #[trigger] nodes[i]@ == k
}

/// The index of a node named `k`.
pub open spec fn index_of(nodes: Seq<String>, k: Name) -> int {
    choose|i: int| 0 <= i < nodes.len() && #[trigger] nodes[i]@ == k
}

/// Whether no two elements of `nodes` have the same name.
pub open spec fn distinct_names(nodes: Seq<String>) -> bool {
    forall|i: int, j: int|
        0 <= i < nodes.len() && 0 <= j < nodes.len() && #[trigger] nodes[i]@ == #[trigger] nodes[j]@
            ==> i == j
}

/// With distinct names, the index of the name of node `i` is `i`.
pub proof fn lemma_index_of(nodes: Seq<String>, i: int)
    requires
        distinct_names(nodes),
        0 <= i < nodes.len(),
    ensures
        has_name(nodes, nodes[i]@),
        index_of(nodes, nodes[i]@) == i,
{
    assert(nodes[i]@ == nodes[i]@);
    let j = index_of(nodes, nodes[i]@);
    assert(0 <= j < nodes.len() && nodes[j]@ == nodes[i]@);
}

impl CallGraph {
    /// The graph is well formed: one successor list per node, no name twice,
    /// and every successor is a node.
    pub open spec fn wf(&self) -> bool {
        &&& self.nodes.len() == self.succ.len()
        &&& distinct_names(self.nodes@)
        &&& forall|i: int, j: int|
            0 <= i < self.succ.len() && 0 <= j < self.succ[i].len() ==> (
            #[trigger] self.succ[i][j]) < self.nodes.len()
    }

    /// Whether `k` is a node of the graph.
    pub open spec fn has_node(&self, k: Name) -> bool {
        has_name(self.nodes@, k)
    }

    /// The names that node `i` calls, in call-site order.
    pub open spec fn out_names(&self, i: int) -> Seq<Name> {
        Seq::new(self.succ[i]@.len(), |j: int| self.nodes[self.succ[i][j] as int]@)
    }

    /// The graph as a mapping from each node's name to the names it calls.
    pub open spec fn view(&self) -> Map<Name, Seq<Name>> {
        Map::new(
            |k: Name| self.has_node(k),
            |k: Name| self.out_names(index_of(self.nodes@, k)),
        )
    }

    /// What the mapping holds for node `i`.
    pub proof fn lemma_view_at(&self, i: int)
        requires
            self.wf(),
            0 <= i < self.nodes.len(),
        ensures
            self@.dom().contains(self.nodes[i]@),
            self@[self.nodes[i]@] == self.out_names(i),
    {
        lemma_index_of(self.nodes@, i);
    }

    /// The closure law: every name that occurs in the outgoing sequence of a
    /// node of a well-formed graph is itself a node of the graph.
    pub proof fn lemma_closed(&self)
        requires
            self.wf(),
        ensures
            is_closed(self@),
    {
        assert forall|k: Name, j: int|
            self@.dom().contains(k) && 0 <= j < self@[k].len() implies self@.dom().contains(
            #[trigger] self@[k][j],
        ) by {
            let i = index_of(self.nodes@, k);
            let t = self.succ[i][j] as int;
            assert(self.nodes[t]@ == self@[k][j]);
        }
    }

    /// The empty graph.
    pub fn new() -> (g: CallGraph)
        ensures
            g.wf(),
            g@ == Map::<Name, Seq<Name>>::empty(),
            g.nodes@.len() == 0,
    {
        let g = CallGraph { nodes: Vec::new(), succ: Vec::new() };
        assert(g@ =~= Map::<Name, Seq<Name>>::empty());
        g
    }

    /// The number of nodes.
    pub fn len(&self) -> (n: usize)
        ensures
            n == self.nodes.len(),
    {
        self.nodes.len()
    }

    /// The index of the node named `name`, if there is one.
    pub fn find(&self, name: &String) -> (r: Option<usize>)
        ensures
            match r {
                Some(i) => i < self.nodes.len() && self.nodes[i as int]@ == name@,
                None => !self.has_node(name@),
            },
    {
        let mut i: usize = 0;
        while i < self.nodes.len()
            invariant
                i <= self.nodes.len(),
                forall|k: int| 0 <= k < i ==> #[trigger] self.nodes[k]@ != name@,
            decreases self.nodes.len() - i,
        {
            if self.nodes[i] == *name {
                return Some(i);
            }
            i += 1;
        }
        None
    }

    /// Makes `name` a node if it is not one yet, with nothing called, and
    /// returns its index. The nodes that were there keep their indices.
    pub fn ensure_node(&mut self, name: &String) -> (i: usize)
        requires
            old(self).wf(),
        ensures
            final(self).wf(),
            i < final(self).nodes.len(),
            final(self).nodes[i as int]@ == name@,
            final(self)@ == (if old(self).has_node(name@) {
                old(self)@
            } else {
                old(self)@.insert(name@, Seq::empty())
            }),
            old(self).nodes.len() <= final(self).nodes.len(),
            forall|k: int|
                0 <= k < old(self).nodes.len() ==> #[trigger] final(self).nodes[k] == old(
                    self,
                ).nodes[k],
    {
        match self.find(name) {
            Some(i) => i,
            None => {
                let ghost before = *self;
                let i = self.nodes.len();
                self.nodes.push(name.clone());
                self.succ.push(Vec::new());
                proof {
                    assert(self.wf());
                    assert forall|k: Name| #[trigger] self.has_node(k) <==> (before.has_node(k) || k == name@) by {
                        if before.has_node(k) {
                            let t = index_of(before.nodes@, k);
                            assert(self.nodes[t]@ == k);
                        }
                        if k == name@ {
                            assert(self.nodes[i as int]@ == k);
                        }
                        if self.has_node(k) {
                            let t = index_of(self.nodes@, k);
                            if t < i {
                                assert(before.nodes[t]@ == k);
                            }
                        }
                    }
                    assert forall|k: Name| #[trigger] before.has_node(k) implies self@[k] == before@[k] by {
                        let t = index_of(before.nodes@, k);
                        assert(self.nodes[t]@ == k);
                        lemma_index_of(self.nodes@, t);
                        assert(self.out_names(t) =~= before.out_names(t));
                    }
                    lemma_index_of(self.nodes@, i as int);
                    assert(self.out_names(i as int) =~= Seq::<Name>::empty());
                    assert(self@ =~= before@.insert(name@, Seq::empty()));
                }
                i
            },
        }
    }

    /// Appends a call from node `i` to node `j`.
    pub fn push_edge(&mut self, i: usize, j: usize)
        requires
            old(self).wf(),
            i < old(self).nodes.len(),
            j < old(self).nodes.len(),
        ensures
            final(self).wf(),
            final(self).nodes == old(self).nodes,
            final(self)@ == old(self)@.insert(
                old(self).nodes[i as int]@,
                old(self)@[old(self).nodes[i as int]@].push(old(self).nodes[j as int]@),
            ),
    {
        let ghost before = *self;
        self.succ[i].push(j);
        proof {
            assert(self.succ@.len() == before.succ@.len());
            assert(self.succ[i as int]@ == before.succ[i as int]@.push(j));
            assert(forall|t: int| 0 <= t < self.succ.len() && t != i ==> self.succ[t] == before.succ[t]);
            assert(self.wf());
            lemma_index_of(before.nodes@, i as int);
            let ghost want = before@.insert(
                before.nodes[i as int]@,
                before@[before.nodes[i as int]@].push(before.nodes[j as int]@),
            );
            assert(self@.dom() =~= want.dom());
            assert forall|k: Name| self@.dom().contains(k) implies #[trigger] self@[k] == want[k] by {
                let t = index_of(before.nodes@, k);
                lemma_index_of(before.nodes@, t);
                if t == i {
                    assert(self.out_names(t) =~= before.out_names(t).push(before.nodes[j as int]@));
                } else {
                    assert(self.out_names(t) =~= before.out_names(t));
                }
            }
            assert(self@ =~= want);
        }
    }

    /// Whether the graph is well formed, checked by inspection.
    pub fn is_well_formed(&self) -> (b: bool)
        ensures
            b == self.wf(),
    {
        let n = self.nodes.len();
        if self.succ.len() != n {
            return false;
        }
        let mut i: usize = 0;
        while i < n
            invariant
                n == self.nodes.len(),
                n == self.succ.len(),
                i <= n,
                forall|a: int, b: int|
                    0 <= a < i && 0 <= b < a ==> #[trigger] self.nodes[a]@ != #[trigger] self.nodes[b]@,
                forall|a: int, b: int|
                    0 <= a < i && 0 <= b < self.succ[a].len() ==> (#[trigger] self.succ[a][b]) < n,
            decreases n - i,
        {
            let mut j: usize = 0;
            while j < i
                invariant
                    n == self.nodes.len(),
                    i < n,
                    j <= i,
                    forall|b: int| 0 <= b < j ==> self.nodes[i as int]@ != #[trigger] self.nodes[b]@,
                decreases i - j,
            {
                if self.nodes[i] == self.nodes[j] {
                    assert(!distinct_names(self.nodes@));
                    return false;
                }
                j += 1;
            }
            let row = &self.succ[i];
            let mut k: usize = 0;
            while k < row.len()
                invariant
                    n == self.nodes.len(),
                    n == self.succ.len(),
                    i < n,
                    row == &self.succ[i as int],
                    k <= row.len(),
                    forall|b: int| 0 <= b < k ==> (#[trigger] row[b]) < n,
                decreases row.len() - k,
            {
                if row[k] >= n {
                    assert(!(self.succ[i as int][k as int] < self.nodes.len()));
                    return false;
                }
                k += 1;
            }
            i += 1;
        }
        proof {
            assert forall|a: int, b: int|
                0 <= a < n && 0 <= b < n && #[trigger] self.nodes[a]@ == #[trigger] self.nodes[b]@
                implies a == b by {
                if a < b {
                    assert(self.nodes[b]@ != self.nodes[a]@);
                } else if b < a {
                    assert(self.nodes[a]@ != self.nodes[b]@);
                }
            }
        }
        true
    }

    /// The names of the nodes of each component, in the same order.
    pub fn component_names(&self, comps: &Vec<Vec<usize>>) -> (out: Vec<Vec<String>>)
        requires
            forall|c: int, k: int|
                0 <= c < comps.len() && 0 <= k < comps[c].len() ==> (#[trigger] comps[c][k])
                    < self.nodes.len(),
        ensures
            out.len() == comps.len(),
            forall|c: int| 0 <= c < out.len() ==> (#[trigger] out[c]).len() == comps[c].len(),
            forall|c: int, k: int|
                0 <= c < out.len() && 0 <= k < out[c].len() ==> (#[trigger] out[c][k])@
                    == self.nodes[comps[c][k] as int]@,
    {
        let mut out: Vec<Vec<String>> = Vec::new();
        let mut c: usize = 0;
        while c < comps.len()
            invariant
                c <= comps.len(),
                out.len() == c,
                forall|t: int, k: int|
                    0 <= t < comps.len() && 0 <= k < comps[t].len() ==> (#[trigger] comps[t][k])
                        < self.nodes.len(),
                forall|t: int| 0 <= t < c ==> (#[trigger] out[t]).len() == comps[t].len(),
                forall|t: int, k: int|
                    0 <= t < c && 0 <= k < out[t].len() ==> (#[trigger] out[t][k])@
                        == self.nodes[comps[t][k] as int]@,
            decreases comps.len() - c,
        {
            let names = self.node_names(&comps[c]);
            out.push(names);
            c += 1;
        }
        out
    }

    /// The names of the nodes `idx`, in the same order.
    pub fn node_names(&self, idx: &Vec<usize>) -> (out: Vec<String>)
        requires
            forall|k: int| 0 <= k < idx.len() ==> #[trigger] idx[k] < self.nodes.len(),
        ensures
            out.len() == idx.len(),
            forall|k: int| 0 <= k < out.len() ==> #[trigger] out[k]@ == self.nodes[idx[k] as int]@,
    {
        let mut out: Vec<String> = Vec::new();
        let mut k: usize = 0;
        while k < idx.len()
            invariant
                k <= idx.len(),
                out.len() == k,
                forall|t: int| 0 <= t < idx.len() ==> #[trigger] idx[t] < self.nodes.len(),
                forall|t: int| 0 <= t < k ==> #[trigger] out[t]@ == self.nodes[idx[t] as int]@,
            decreases idx.len() - k,
        {
            out.push(self.nodes[idx[k]].clone());
            k += 1;
        }
        out
    }

    /// The names that the node called `name` calls, in call-site order, if
    /// there is such a node.
    pub fn calls_of(&self, name: &String) -> (r: Option<Vec<String>>)
        requires
            self.wf(),
        ensures
            match r {
                Some(v) => self@.dom().contains(name@) && names_of(v@) == self@[name@],
                None => !self@.dom().contains(name@),
            },
    {
        match self.find(name) {
            Some(i) => {
                let out = self.node_names(&self.succ[i]);
                proof {
                    self.lemma_view_at(i as int);
                    assert(names_of(out@) =~= self.out_names(i as int));
                }
                Some(out)
            },
            None => None,
        }
    }

    /// The graph as a list: for each node, in node order, its name and the
    /// names it calls, in call-site order.
    pub fn entries(&self) -> (out: Vec<(String, Vec<String>)>)
        requires
            self.wf(),
        ensures
            out.len() == self.nodes.len(),
            forall|i: int|
                0 <= i < out.len() ==> (#[trigger] out[i]).0@ == self.nodes[i]@ && names_of(
                    out[i].1@,
                ) == self@[self.nodes[i]@],
    {
        let mut out: Vec<(String, Vec<String>)> = Vec::new();
        let mut i: usize = 0;
        while i < self.nodes.len()
            invariant
                self.wf(),
                i <= self.nodes.len(),
                out.len() == i,
                forall|t: int|
                    0 <= t < i ==> (#[trigger] out[t]).0@ == self.nodes[t]@ && names_of(out[t].1@)
                        == self@[self.nodes[t]@],
            decreases self.nodes.len() - i,
        {
            let calls = self.node_names(&self.succ[i]);
            proof {
                self.lemma_view_at(i as int);
                assert(names_of(calls@) =~= self.out_names(i as int));
            }
            out.push((self.nodes[i].clone(), calls));
            i += 1;
        }
        out
    }

    /// Empties the outgoing sequence of node `i`.
    pub fn clear_edges(&mut self, i: usize)
        requires
            old(self).wf(),
            i < old(self).nodes.len(),
        ensures
            final(self).wf(),
            final(self).nodes == old(self).nodes,
            final(self)@ == old(self)@.insert(old(self).nodes[i as int]@, Seq::empty()),
    {
        let ghost before = *self;
        self.succ[i] = Vec::new();
        proof {
            assert(self.wf());
            lemma_index_of(before.nodes@, i as int);
            let ghost want = before@.insert(before.nodes[i as int]@, Seq::empty());
            assert(self@.dom() =~= want.dom());
            assert forall|k: Name| self@.dom().contains(k) implies #[trigger] self@[k] == want[k] by {
                let t = index_of(before.nodes@, k);
                lemma_index_of(before.nodes@, t);
                if t == i {
                    assert(self.out_names(t) =~= Seq::<Name>::empty());
                } else {
                    assert(self.out_names(t) =~= before.out_names(t));
                }
            }
            assert(self@ =~= want);
        }
    }

    /// Makes `name` a scope with nothing called yet: a new node, or an
    /// existing one whose outgoing sequence is emptied.
    pub fn define_scope(&mut self, name: &String)
        requires
            old(self).wf(),
        ensures
            final(self).wf(),
            final(self)@ == old(self)@.insert(name@, Seq::empty()),
    {
        let ghost before = self@;
        let i = self.ensure_node(name);
        self.clear_edges(i);
        assert(self@ =~= before.insert(name@, Seq::empty()));
    }

    /// Records one call from `scope` to `callee`: the call is appended to the
    /// outgoing sequence of `scope`, and both names are nodes afterwards.
    pub fn add_edge(&mut self, scope: &String, callee: &String)
        requires
            old(self).wf(),
        ensures
            final(self).wf(),
            final(self)@ == with_edge(old(self)@, scope@, callee@),
    {
        let ghost before = self@;
        let i = self.ensure_node(scope);
        let j = self.ensure_node(callee);
        self.push_edge(i, j);
        assert(self@ =~= with_edge(before, scope@, callee@));
    }
}

/// Whether every name in an outgoing sequence of `m` is a key of `m`.
pub open spec fn is_closed(m: Map<Name, Seq<Name>>) -> bool {
    forall|k: Name, j: int|
        m.dom().contains(k) && 0 <= j < m[k].len() ==> m.dom().contains(#[trigger] m[k][j])
}

/// The outgoing sequence of `k` in `m`, empty where `k` is no key.
pub open spec fn out_of(m: Map<Name, Seq<Name>>, k: Name) -> Seq<Name> {
    if m.dom().contains(k) {
        m[k]
    } else {
        Seq::empty()
    }
}

/// The mapping after one call from `scope` to `callee` is recorded.
pub open spec fn with_edge(m: Map<Name, Seq<Name>>, scope: Name, callee: Name) -> Map<
    Name,
    Seq<Name>,
> {
    let m1 = m.insert(scope, out_of(m, scope).push(callee));
    if m1.dom().contains(callee) {
        m1
    } else {
        m1.insert(callee, Seq::empty())
    }
}

/// The mapping after the calls from `scope` to each of `names` are recorded,
/// in order.
pub open spec fn with_edges(m: Map<Name, Seq<Name>>, scope: Name, names: Seq<Name>) -> Map<
    Name,
    Seq<Name>,
>
    decreases names.len(),
{
    if names.len() == 0 {
        m
    } else {
        with_edge(with_edges(m, scope, names.drop_last()), scope, names.last())
    }
}

/// Recording `a` and then `b` is recording `a + b`.
pub proof fn lemma_with_edges_concat(
    m: Map<Name, Seq<Name>>,
    scope: Name,
    a: Seq<Name>,
    b: Seq<Name>,
)
    ensures
        with_edges(with_edges(m, scope, a), scope, b) == with_edges(m, scope, a + b),
    decreases b.len(),
{
    if b.len() == 0 {
        assert(a + b =~= a);
    } else {
        lemma_with_edges_concat(m, scope, a, b.drop_last());
        assert((a + b).drop_last() =~= a + b.drop_last());
        assert((a + b).last() == b.last());
    }
}

/// Recording a call keeps a closed mapping closed.
pub proof fn lemma_with_edge_closed(m: Map<Name, Seq<Name>>, scope: Name, callee: Name)
    requires
        is_closed(m),
    ensures
        is_closed(with_edge(m, scope, callee)),
{
    let r = with_edge(m, scope, callee);
    assert forall|k: Name, j: int| r.dom().contains(k) && 0 <= j < r[k].len() implies r.dom().contains(
        #[trigger] r[k][j],
    ) by {
        if k == scope {
            if j < out_of(m, scope).len() {
                assert(r[k][j] == m[k][j]);
            }
        } else if m.dom().contains(k) {
            assert(r[k][j] == m[k][j]);
        }
    }
}

/// Recording calls keeps a closed mapping closed.
pub proof fn lemma_with_edges_closed(m: Map<Name, Seq<Name>>, scope: Name, names: Seq<Name>)
    requires
        is_closed(m),
    ensures
        is_closed(with_edges(m, scope, names)),
    decreases names.len(),
{
    if names.len() > 0 {
        lemma_with_edges_closed(m, scope, names.drop_last());
        lemma_with_edge_closed(with_edges(m, scope, names.drop_last()), scope, names.last());
    }
}

/// Recording calls from `scope` appends them, in order and with duplicates,
/// to the outgoing sequence of `scope`, and leaves the outgoing sequence of
/// every other name as it was.
pub proof fn lemma_with_edges_out(m: Map<Name, Seq<Name>>, scope: Name, names: Seq<Name>, k: Name)
    ensures
        with_edges(m, scope, names).dom().contains(scope) || names.len() == 0,
        out_of(with_edges(m, scope, names), k) == (if k == scope {
            out_of(m, scope) + names
        } else {
            out_of(m, k)
        }),
    decreases names.len(),
{
    if names.len() == 0 {
        assert(out_of(m, scope) + names =~= out_of(m, scope));
    } else {
        lemma_with_edges_out(m, scope, names.drop_last(), k);
        lemma_with_edges_out(m, scope, names.drop_last(), scope);
        assert(out_of(m, scope) + names =~= (out_of(m, scope) + names.drop_last()).push(
            names.last(),
        ));
    }
}

} // verus!

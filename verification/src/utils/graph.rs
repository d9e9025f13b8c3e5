use vstd::prelude::*;

verus! {

/// An edge of a graph with linked adjacency lists: the next edge out of the same node and
/// the next edge into the same node (`-1` at the end of a list), its ends and its value.
pub struct Edge<E> {
    pub next: i32,
    pub next_rev: i32,
    pub to: i32,
    pub from: i32,
    pub value: E,
}

/// A directed graph with values on nodes and edges: `head[u]` is the newest edge out of
/// `u` and `parent[v]` the newest edge into `v` (`-1` for none).
pub struct Graph<N, E> {
    pub head: Vec<i32>,
    pub edges: Vec<Edge<E>>,
    pub value: Vec<N>,
    pub parent: Vec<i32>,
}

/// The targets along the list of outgoing edges that starts at edge `e`.
pub open spec fn out_chain<E>(edges: Seq<Edge<E>>, e: int) -> Seq<int>
    decreases e + 1,
{
    if e < 0 || e >= edges.len() {
        seq![]
    } else if -1 <= edges[e].next < e {
        seq![edges[e].to as int] + out_chain(edges, edges[e].next as int)
    } else {
        seq![edges[e].to as int]
    }
}

/// The sources along the list of incoming edges that starts at edge `e`.
pub open spec fn in_chain<E>(edges: Seq<Edge<E>>, e: int) -> Seq<int>
    decreases e + 1,
{
    if e < 0 || e >= edges.len() {
        seq![]
    } else if -1 <= edges[e].next_rev < e {
        seq![edges[e].from as int] + in_chain(edges, edges[e].next_rev as int)
    } else {
        seq![edges[e].from as int]
    }
}

proof fn lemma_chains_push<E>(edges: Seq<Edge<E>>, x: Edge<E>, e: int)
    requires
        e < edges.len(),
    ensures
        out_chain(edges.push(x), e) == out_chain(edges, e),
        in_chain(edges.push(x), e) == in_chain(edges, e),
    decreases e + 1,
{
    if e >= 0 {
        if -1 <= edges[e].next < e {
            lemma_chains_push(edges, x, edges[e].next as int);
        }
        if -1 <= edges[e].next_rev < e {
            lemma_chains_push(edges, x, edges[e].next_rev as int);
        }
    }
}

impl<N, E> Graph<N, E> {
    /// The lists are well linked: one head and one parent entry per node, every list
    /// entry `-1` or an older edge, and every edge between nodes of the graph.
    pub open spec fn wf(&self) -> bool {
        &&& self.head@.len() == self.value@.len()
        &&& self.parent@.len() == self.value@.len()
        &&& self.edges@.len() < i32::MAX
        &&& forall|u: int| 0 <= u < self.head@.len() ==> -1 <= #[trigger] self.head@[u] < self.edges@.len()
        &&& forall|u: int| 0 <= u < self.parent@.len() ==> -1 <= #[trigger] self.parent@[u] < self.edges@.len()
        &&& forall|e: int| 0 <= e < self.edges@.len() ==> -1 <= #[trigger] self.edges@[e].next < e
        &&& forall|e: int| 0 <= e < self.edges@.len() ==> -1 <= #[trigger] self.edges@[e].next_rev < e
        &&& forall|e: int| 0 <= e < self.edges@.len() ==> 0 <= #[trigger] self.edges@[e].from < self.value@.len()
        &&& forall|e: int| 0 <= e < self.edges@.len() ==> 0 <= #[trigger] self.edges@[e].to < self.value@.len()
    }

    /// The targets of the edges out of each node, newest first.
    pub open spec fn succs(&self) -> Seq<Seq<int>> {
        Seq::new(self.head@.len(), |u: int| out_chain(self.edges@, self.head@[u] as int))
    }

    /// The sources of the edges into each node, newest first.
    pub open spec fn preds(&self) -> Seq<Seq<int>> {
        Seq::new(self.parent@.len(), |u: int| in_chain(self.edges@, self.parent@[u] as int))
    }

    /// An empty graph.
    pub fn new() -> (res: Graph<N, E>)
        ensures
            res.wf(),
            res.value@.len() == 0,
            res.edges@.len() == 0,
    {
        Graph { head: Vec::new(), edges: Vec::new(), value: Vec::new(), parent: Vec::new() }
    }

    /// Adds a node with `value` and no edges.
    pub fn add_node(&mut self, value: N)
        requires
            old(self).wf(),
        ensures
            final(self).wf(),
            final(self).value@ == old(self).value@.push(value),
            final(self).edges@ == old(self).edges@,
            final(self).head@ == old(self).head@.push(-1i32),
            final(self).parent@ == old(self).parent@.push(-1i32),
            final(self).succs() == old(self).succs().push(Seq::<int>::empty()),
            final(self).preds() == old(self).preds().push(Seq::<int>::empty()),
    {
        self.head.push(-1);
        self.parent.push(-1);
        self.value.push(value);
        assert(self.succs() =~= old(self).succs().push(Seq::<int>::empty()));
        assert(self.preds() =~= old(self).preds().push(Seq::<int>::empty()));
    }

    /// Adds the edge `from -> to` with `value` in front of the lists of both ends.
    pub fn add_edge(&mut self, from: usize, to: usize, value: E)
        requires
            old(self).wf(),
            from < old(self).value@.len(),
            to < old(self).value@.len(),
            from < i32::MAX,
            to < i32::MAX,
            old(self).edges@.len() + 1 < i32::MAX,
        ensures
            final(self).wf(),
            final(self).value@ == old(self).value@,
            final(self).edges@.len() == old(self).edges@.len() + 1,
            final(self).edges@ == old(self).edges@.push(
                (Edge { next: old(self).head@[from as int], next_rev: old(self).parent@[to as int], to: to as i32, from: from as i32, value }),
            ),
            final(self).head@ == old(self).head@.update(from as int, old(self).edges@.len() as i32),
            final(self).parent@ == old(self).parent@.update(to as int, old(self).edges@.len() as i32),
            final(self).succs() == old(self).succs().update(from as int, seq![to as int] + old(self).succs()[from as int]),
            final(self).preds() == old(self).preds().update(to as int, seq![from as int] + old(self).preds()[to as int]),
    {
        let ghost old_edges = self.edges@;
        let ghost s0 = self.succs();
        let ghost p0 = self.preds();
        let edge = Edge { next: self.head[from], next_rev: self.parent[to], to: to as i32, from: from as i32, value };
        let ghost nx = edge.next;
        let ghost nr = edge.next_rev;
        self.edges.push(edge);
        let idx = (self.edges.len() - 1) as i32;
        self.head.set(from, idx);
        self.parent.set(to, idx);
        proof {
            let e2 = self.edges@;
            assert(e2[old_edges.len() as int].next == nx);
            assert(e2[old_edges.len() as int].next_rev == nr);
            assert forall|u: int| 0 <= u < self.head@.len() implies (#[trigger] self.succs()[u]) == s0.update(from as int, seq![to as int] + s0[from as int])[u] by {
                if u == from {
                    lemma_chains_push(old_edges, e2.last(), nx as int);
                    assert(out_chain(e2, old_edges.len() as int) =~= seq![to as int] + out_chain(e2, nx as int));
                } else {
                    lemma_chains_push(old_edges, e2.last(), self.head@[u] as int);
                }
            }
            assert(self.succs() =~= s0.update(from as int, seq![to as int] + s0[from as int]));
            assert forall|u: int| 0 <= u < self.parent@.len() implies (#[trigger] self.preds()[u]) == p0.update(to as int, seq![from as int] + p0[to as int])[u] by {
                if u == to {
                    lemma_chains_push(old_edges, e2.last(), nr as int);
                    assert(in_chain(e2, old_edges.len() as int) =~= seq![from as int] + in_chain(e2, nr as int));
                } else {
                    lemma_chains_push(old_edges, e2.last(), self.parent@[u] as int);
                }
            }
            assert(self.preds() =~= p0.update(to as int, seq![from as int] + p0[to as int]));
        }
    }

    /// The targets of the edges out of `u`, newest first.
    pub fn successors(&self, u: usize) -> (res: Vec<usize>)
        requires
            self.wf(),
            u < self.head@.len(),
        ensures
            res@.map_values(|x: usize| x as int) == self.succs()[u as int],
            forall|k: int| 0 <= k < res@.len() ==> (#[trigger] res@[k]) < self.value@.len(),
    {
        let mut res: Vec<usize> = Vec::new();
        let mut e = self.head[u];
        while e != -1
            invariant
                self.wf(),
                u < self.head@.len(),
                -1 <= e < self.edges@.len(),
                res@.map_values(|x: usize| x as int) + out_chain(self.edges@, e as int) == self.succs()[u as int],
                forall|k: int| 0 <= k < res@.len() ==> (#[trigger] res@[k]) < self.value@.len(),
            decreases e + 1,
        {
            let ghost before = res@.map_values(|x: usize| x as int);
            let to = self.edges[e as usize].to;
            res.push(to as usize);
            assert(res@.map_values(|x: usize| x as int) =~= before.push(self.edges@[e as int].to as int));
            assert(before + out_chain(self.edges@, e as int) =~= before.push(self.edges@[e as int].to as int) + out_chain(
                self.edges@,
                self.edges@[e as int].next as int,
            ));
            e = self.edges[e as usize].next;
        }
        assert(res@.map_values(|x: usize| x as int) + out_chain(self.edges@, e as int) =~= res@.map_values(|x: usize| x as int));
        res
    }

    /// The sources of the edges into `v`, newest first.
    pub fn predecessors(&self, v: usize) -> (res: Vec<usize>)
        requires
            self.wf(),
            v < self.parent@.len(),
        ensures
            res@.map_values(|x: usize| x as int) == self.preds()[v as int],
            forall|k: int| 0 <= k < res@.len() ==> (#[trigger] res@[k]) < self.value@.len(),
    {
        let mut res: Vec<usize> = Vec::new();
        let mut e = self.parent[v];
        while e != -1
            invariant
                self.wf(),
                v < self.parent@.len(),
                -1 <= e < self.edges@.len(),
                res@.map_values(|x: usize| x as int) + in_chain(self.edges@, e as int) == self.preds()[v as int],
                forall|k: int| 0 <= k < res@.len() ==> (#[trigger] res@[k]) < self.value@.len(),
            decreases e + 1,
        {
            let ghost before = res@.map_values(|x: usize| x as int);
            let from = self.edges[e as usize].from;
            res.push(from as usize);
            assert(res@.map_values(|x: usize| x as int) =~= before.push(self.edges@[e as int].from as int));
            assert(before + in_chain(self.edges@, e as int) =~= before.push(self.edges@[e as int].from as int) + in_chain(
                self.edges@,
                self.edges@[e as int].next_rev as int,
            ));
            e = self.edges[e as usize].next_rev;
        }
        assert(res@.map_values(|x: usize| x as int) + in_chain(self.edges@, e as int) =~= res@.map_values(|x: usize| x as int));
        res
    }
}

} // verus!

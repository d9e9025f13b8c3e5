use vstd::prelude::*;

verus! {

/// An edge in the adjacency lists: the next edge out of the same node (`-1` at the
/// end of the list) and the node it leads to.
pub struct Edge {
    pub next: i32,
    pub to: i32,
}

/// A directed graph stored as linked adjacency lists: `head[u]` is the newest edge
/// out of `u` (`-1` for none).
pub struct Graph {
    pub edges: Vec<Edge>,
    pub head: Vec<i32>,
    pub edge_count: i32,
}

/// The targets along the adjacency list that starts at edge `e`.
pub open spec fn chain(edges: Seq<Edge>, e: int) -> Seq<int>
    decreases e + 1,
{
    if e < 0 || e >= edges.len() {
        seq![]
    } else if -1 <= edges[e].next < e {
        seq![edges[e].to as int] + chain(edges, edges[e].next as int)
    } else {
        seq![edges[e].to as int]
    }
}

pub proof fn lemma_chain_push(edges: Seq<Edge>, x: Edge, e: int)
    requires
        e < edges.len(),
    ensures
        chain(edges.push(x), e) == chain(edges, e),
    decreases e + 1,
{
    if e >= 0 && -1 <= edges[e].next < e {
        lemma_chain_push(edges, x, edges[e].next as int);
    }
}

impl Graph {
    /// Every list is well linked: heads and links point to older edges or are `-1`,
    /// and `edge_count` counts the edges.
    pub open spec fn wf(&self) -> bool {
        &&& self.edge_count == self.edges@.len()
        &&& forall|u: int| 0 <= u < self.head@.len() ==> -1 <= #[trigger] self.head@[u] < self.edges@.len()
        &&& forall|e: int| 0 <= e < self.edges@.len() ==> -1 <= #[trigger] self.edges@[e].next < e
    }

    /// The targets of the edges out of each node, newest first.
    pub open spec fn adj(&self) -> Seq<Seq<int>> {
        Seq::new(self.head@.len(), |u: int| chain(self.edges@, self.head@[u] as int))
    }

    pub fn new(node_count: i32) -> (res: Graph)
        requires
            node_count >= 0,
        ensures
            res.wf(),
            res.head@.len() == node_count,
            res.edges@.len() == 0,
            forall|u: int| 0 <= u < node_count ==> (#[trigger] res.adj()[u]) == Seq::<int>::empty(),
    {
        let mut head: Vec<i32> = Vec::new();
        let mut i: i32 = 0;
        while i < node_count
            invariant
                0 <= i <= node_count,
                head@.len() == i,
                forall|u: int| 0 <= u < i ==> head@[u] == -1,
            decreases node_count - i,
        {
            head.push(-1);
            i = i + 1;
        }
        Graph { edges: Vec::new(), head, edge_count: 0 }
    }

    /// Adds the edge `from -> to` in front of the list of `from`.
    pub fn add_edge(&mut self, from: i32, to: i32)
        requires
            old(self).wf(),
            0 <= from < old(self).head@.len(),
            old(self).edges@.len() < i32::MAX,
        ensures
            final(self).wf(),
            final(self).head@.len() == old(self).head@.len(),
            final(self).edges@.len() == old(self).edges@.len() + 1,
            final(self).adj() == old(self).adj().update(from as int, seq![to as int] + old(self).adj()[from as int]),
    {
        let edge = Edge { next: self.head[from as usize], to };
        let ghost old_edges = self.edges@;
        let ghost old_adj = self.adj();
        self.edges.push(edge);
        self.head.set(from as usize, self.edge_count);
        self.edge_count = self.edge_count + 1;
        proof {
            assert forall|u: int| 0 <= u < self.head@.len() implies (#[trigger] self.adj()[u]) == old_adj.update(
                from as int,
                seq![to as int] + old_adj[from as int],
            )[u] by {
                if u == from {
                    lemma_chain_push(old_edges, edge, edge.next as int);
                    assert(chain(self.edges@, old_edges.len() as int) =~= seq![to as int] + chain(self.edges@, edge.next as int));
                } else {
                    lemma_chain_push(old_edges, edge, self.head@[u] as int);
                }
            }
            assert(self.adj() =~= old_adj.update(from as int, seq![to as int] + old_adj[from as int]));
        }
    }

    /// The targets of the edges out of `u`, newest first.
    pub fn successors(&self, u: usize) -> (res: Vec<i32>)
        requires
            self.wf(),
            u < self.head@.len(),
        ensures
            res@.map_values(|x: i32| x as int) == self.adj()[u as int],
    {
        let mut res: Vec<i32> = Vec::new();
        let mut e = self.head[u];
        while e != -1
            invariant
                self.wf(),
                u < self.head@.len(),
                -1 <= e < self.edges@.len(),
                res@.map_values(|x: i32| x as int) + chain(self.edges@, e as int) == self.adj()[u as int],
            decreases e + 1,
        {
            let ghost before = res@.map_values(|x: i32| x as int);
            res.push(self.edges[e as usize].to);
            assert(res@.map_values(|x: i32| x as int) =~= before.push(self.edges@[e as int].to as int));
            assert(before + chain(self.edges@, e as int) =~= before.push(self.edges@[e as int].to as int) + chain(
                self.edges@,
                self.edges@[e as int].next as int,
            ));
            e = self.edges[e as usize].next;
        }
        assert(res@.map_values(|x: i32| x as int) + chain(self.edges@, e as int) =~= res@.map_values(|x: i32| x as int));
        res
    }
}


/// Putting `to` in front of the list of `from` keeps every edge and adds `from -> to`.
pub proof fn lemma_prepend(adj: Seq<Seq<int>>, from: int, to: int)
    requires
        0 <= from < adj.len(),
    ensures
        ({
            let adj2 = adj.update(from, seq![to] + adj[from]);
            &&& adj2.len() == adj.len()
            &&& adj2[from].contains(to)
            &&& forall|x: int, y: int| 0 <= x < adj.len() && #[trigger] adj[x].contains(y) ==> adj2[x].contains(y)
            &&& forall|x: int, y: int| 0 <= x < adj.len() && #[trigger] adj2[x].contains(y) ==> adj[x].contains(y) || (x == from && y == to)
        }),
{
    let adj2 = adj.update(from, seq![to] + adj[from]);
    assert(adj2[from][0] == to);
    assert forall|x: int, y: int| 0 <= x < adj.len() && #[trigger] adj[x].contains(y) implies adj2[x].contains(y) by {
        if x == from {
            let q = choose|q: int| 0 <= q < adj[x].len() && adj[x][q] == y;
            assert(adj2[x][q + 1] == y);
        }
    }
    assert forall|x: int, y: int| 0 <= x < adj.len() && #[trigger] adj2[x].contains(y) implies adj[x].contains(y) || (x == from && y == to) by {
        if x == from {
            let q = choose|q: int| 0 <= q < adj2[x].len() && adj2[x][q] == y;
            if q > 0 {
                assert(adj[x][q - 1] == y);
            }
        }
    }
}

} // verus!

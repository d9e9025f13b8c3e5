use vstd::prelude::*;
use std::collections::HashSet;
use crate::utils::graph::{Graph, out_chain};
use crate::utils::count::{count_true, count_marks, lemma_count_true_sub, lemma_count_marks_update, same_flags};

verus! {

/// The dominator equation at `v`: `v` itself and every node below `n` that lies in the
/// set of each predecessor of `v`.
pub open spec fn dom_step(preds: Seq<Seq<int>>, sol: Seq<Set<usize>>, n: nat, v: int) -> Set<usize> {
    Set::new(|x: usize| x < n && (x == v || forall|k: int| 0 <= k < preds[v].len() ==> #[trigger] sol[preds[v][k]].contains(x)))
}

/// `sol` solves the dominator equations of a graph of `n` nodes with entry node 0.
pub open spec fn dom_solution(preds: Seq<Seq<int>>, sol: Seq<Set<usize>>, n: nat) -> bool {
    &&& sol.len() == n
    &&& n > 0 ==> sol[0] == set![0usize]
    &&& forall|v: int| 1 <= v < n ==> #[trigger] sol[v] == dom_step(preds, sol, n, v)
}

/// The sets that rows of flags stand for.
pub open spec fn flag_sets(m: Seq<Vec<bool>>, n: nat) -> Seq<Set<usize>> {
    m.map_values(|r: Vec<bool>| Set::new(|x: usize| x < n && r@[x as int]))
}

/// The sets of a vector of hash sets.
pub open spec fn hash_sets(v: Seq<HashSet<usize>>) -> Seq<Set<usize>> {
    v.map_values(|h: HashSet<usize>| h@)
}

/// Shrinking the sets shrinks the dominator equation's right side.
proof fn lemma_dom_step_mono(preds: Seq<Seq<int>>, s: Seq<Set<usize>>, t: Seq<Set<usize>>, n: nat, v: int)
    requires
        forall|k: int| 0 <= k < preds[v].len() ==> (#[trigger] s[preds[v][k]]).subset_of(t[preds[v][k]]),
    ensures
        dom_step(preds, s, n, v).subset_of(dom_step(preds, t, n, v)),
{
    assert forall|x: usize| dom_step(preds, s, n, v).contains(x) implies dom_step(preds, t, n, v).contains(x) by {
        if x != v {
            assert forall|k: int| 0 <= k < preds[v].len() implies #[trigger] t[preds[v][k]].contains(x) by {
                assert(s[preds[v][k]].contains(x));
            }
        }
    }
}

/// The right side of the dominator equation at `node` as a row of flags.
fn dom_row(preds: &Vec<usize>, ans: &Vec<Vec<bool>>, n: usize, node: usize, Ghost(p): Ghost<Seq<int>>) -> (res: Vec<bool>)
    requires
        node < n,
        ans@.len() == n,
        forall|i: int| 0 <= i < n ==> (#[trigger] ans@[i])@.len() == n,
        p == preds@.map_values(|x: usize| x as int),
        forall|k: int| 0 <= k < preds@.len() ==> (#[trigger] preds@[k]) < n,
    ensures
        res@.len() == n,
        forall|x: int| 0 <= x < n ==> (res@[x] <==> (x == node || forall|k: int| 0 <= k < p.len() ==> #[trigger] ans@[p[k]]@[x])),
{
    let mut row: Vec<bool> = Vec::new();
    for x in 0..n
        invariant
            row@.len() == x,
            forall|y: int| 0 <= y < x ==> row@[y],
    {
        row.push(true);
    }
    for k in 0..preds.len()
        invariant
            node < n,
            ans@.len() == n,
            forall|i: int| 0 <= i < n ==> (#[trigger] ans@[i])@.len() == n,
            p == preds@.map_values(|x: usize| x as int),
            forall|k2: int| 0 <= k2 < preds@.len() ==> (#[trigger] preds@[k2]) < n,
            row@.len() == n,
            forall|x: int| 0 <= x < n ==> (row@[x] <==> forall|k2: int| 0 <= k2 < k ==> #[trigger] ans@[p[k2]]@[x]),
    {
        let q = preds[k];
        for x in 0..n
            invariant
                ans@.len() == n,
                forall|i: int| 0 <= i < n ==> (#[trigger] ans@[i])@.len() == n,
                q < n,
                q == p[k as int],
                row@.len() == n,
                forall|y: int| 0 <= y < x ==> (row@[y] <==> forall|k2: int| 0 <= k2 < k + 1 ==> #[trigger] ans@[p[k2]]@[y]),
                forall|y: int| x <= y < n ==> (row@[y] <==> forall|k2: int| 0 <= k2 < k ==> #[trigger] ans@[p[k2]]@[y]),
        {
            if !ans[q][x] {
                row.set(x, false);
            }
            proof {
                assert forall|y: int| 0 <= y < x + 1 implies (row@[y] <==> forall|k2: int| 0 <= k2 < k + 1 ==> #[trigger] ans@[p[k2]]@[y]) by {
                    if y == x {
                        assert(ans@[p[k as int]]@[y] == ans@[q as int]@[y]);
                    }
                }
            }
        }
    }
    row.set(node, true);
    row
}

/// The dominator sets of the nodes of `g` from entry node 0: the greatest solution of
/// the dominator equations over the lists of predecessors.
pub fn dominant(g: &Graph<(), ()>) -> (res: Vec<HashSet<usize>>)
    requires
        g.wf(),
        g.value@.len() > 0,
    ensures
        dom_solution(g.preds(), hash_sets(res@), g.value@.len()),
        forall|s: Seq<Set<usize>>| #[trigger] dom_solution(g.preds(), s, g.value@.len()) ==>
            forall|v: int| 0 <= v < g.value@.len() ==> s[v].subset_of(hash_sets(res@)[v]),
{
    let n = g.head.len();
    let ghost nn = n as nat;
    let ghost pr = g.preds();
    let mut preds: Vec<Vec<usize>> = Vec::new();
    for v in 0..n
        invariant
            n == g.head@.len(),
            g.wf(),
            pr == g.preds(),
            preds@.len() == v,
            forall|u: int| 0 <= u < v ==> (#[trigger] preds@[u])@.map_values(|x: usize| x as int) == pr[u],
            forall|u: int, k: int| 0 <= u < v && 0 <= k < preds@[u]@.len() ==> (#[trigger] preds@[u]@[k]) < n,
    {
        preds.push(g.predecessors(v));
    }
    proof {
        assert forall|u: int, k: int| 0 <= u < n && 0 <= k < pr[u].len() implies 0 <= #[trigger] pr[u][k] < n by {
            assert(preds@[u]@.map_values(|x: usize| x as int)[k] == pr[u][k]);
            assert(preds@[u]@[k] < n);
        }
    }
    let mut ans: Vec<Vec<bool>> = Vec::new();
    for v in 0..n
        invariant
            ans@.len() == v,
            forall|i: int| 0 <= i < v ==> (#[trigger] ans@[i])@.len() == n,
            v > 0 ==> forall|x: int| 0 <= x < n ==> (ans@[0]@[x] <==> x == 0),
            forall|i: int, x: int| 1 <= i < v && 0 <= x < n ==> #[trigger] ans@[i]@[x],
    {
        let mut row: Vec<bool> = Vec::new();
        for x in 0..n
            invariant
                row@.len() == x,
                forall|y: int| 0 <= y < x ==> (row@[y] <==> (v != 0 || y == 0)),
        {
            row.push(v != 0 || x == 0);
        }
        ans.push(row);
    }
    proof {
        assert forall|v: int| 1 <= v < n implies dom_step(pr, flag_sets(ans@, nn), nn, v).subset_of(#[trigger] flag_sets(ans@, nn)[v]) by {
            assert forall|x: usize| dom_step(pr, flag_sets(ans@, nn), nn, v).contains(x) implies flag_sets(ans@, nn)[v].contains(x) by {
                assert(ans@[v]@[x as int]);
            }
        }
        assert forall|s: Seq<Set<usize>>| #[trigger] dom_solution(pr, s, nn) implies
            forall|v: int| 0 <= v < n ==> s[v].subset_of(flag_sets(ans@, nn)[v]) by {
            assert forall|v: int| 0 <= v < n implies s[v].subset_of(flag_sets(ans@, nn)[v]) by {
                if v == 0 {
                    assert(s[0] =~= flag_sets(ans@, nn)[0]);
                } else {
                    assert forall|x: usize| s[v].contains(x) implies flag_sets(ans@, nn)[v].contains(x) by {
                        assert(dom_step(pr, s, nn, v).contains(x));
                        assert(ans@[v]@[x as int]);
                    }
                }
            }
        }
    }
    let ghost mut count: nat = count_marks(ans@);
    let mut flag = true;
    while flag
        invariant
            n == g.head@.len(),
            nn == n,
            g.wf(),
            pr == g.preds(),
            pr.len() == n,
            forall|u: int, k: int| 0 <= u < n && 0 <= k < pr[u].len() ==> 0 <= #[trigger] pr[u][k] < n,
            preds@.len() == n,
            forall|u: int| 0 <= u < n ==> (#[trigger] preds@[u])@.map_values(|x: usize| x as int) == pr[u],
            forall|u: int, k: int| 0 <= u < n && 0 <= k < preds@[u]@.len() ==> (#[trigger] preds@[u]@[k]) < n,
            ans@.len() == n,
            forall|i: int| 0 <= i < n ==> (#[trigger] ans@[i])@.len() == n,
            n > 0,
            forall|x: int| 0 <= x < n ==> (ans@[0]@[x] <==> x == 0),
            forall|v: int| 1 <= v < n ==> dom_step(pr, flag_sets(ans@, nn), nn, v).subset_of(#[trigger] flag_sets(ans@, nn)[v]),
            forall|s: Seq<Set<usize>>| #[trigger] dom_solution(pr, s, nn) ==>
                forall|v: int| 0 <= v < n ==> s[v].subset_of(flag_sets(ans@, nn)[v]),
            !flag ==> forall|v: int| 1 <= v < n ==> #[trigger] flag_sets(ans@, nn)[v] == dom_step(pr, flag_sets(ans@, nn), nn, v),
            count == count_marks(ans@),
        decreases count + if flag { 1int } else { 0int },
    {
        flag = false;
        let ghost a0 = ans@;
        let ghost c0 = count;
        for node in 1..n
            invariant
                n == g.head@.len(),
                nn == n,
                pr.len() == n,
                forall|u: int, k: int| 0 <= u < n && 0 <= k < pr[u].len() ==> 0 <= #[trigger] pr[u][k] < n,
                preds@.len() == n,
                forall|u: int| 0 <= u < n ==> (#[trigger] preds@[u])@.map_values(|x: usize| x as int) == pr[u],
                forall|u: int, k: int| 0 <= u < n && 0 <= k < preds@[u]@.len() ==> (#[trigger] preds@[u]@[k]) < n,
                ans@.len() == n,
                forall|i: int| 0 <= i < n ==> (#[trigger] ans@[i])@.len() == n,
                forall|x: int| 0 <= x < n ==> (ans@[0]@[x] <==> x == 0),
                forall|v: int| 1 <= v < n ==> dom_step(pr, flag_sets(ans@, nn), nn, v).subset_of(#[trigger] flag_sets(ans@, nn)[v]),
                forall|s: Seq<Set<usize>>| #[trigger] dom_solution(pr, s, nn) ==>
                    forall|v: int| 0 <= v < n ==> s[v].subset_of(flag_sets(ans@, nn)[v]),
                count == count_marks(ans@),
                flag ==> count < c0,
                !flag ==> ans@ == a0 && count == c0,
                !flag ==> forall|v: int| 1 <= v < node ==> #[trigger] flag_sets(ans@, nn)[v] == dom_step(pr, flag_sets(ans@, nn), nn, v),
        {
            let ghost s0 = flag_sets(ans@, nn);
            let ghost pv = pr[node as int];
            let newd = dom_row(&preds[node], &ans, n, node, Ghost(pv));
            let ghost fs = Set::new(|x: usize| x < n && newd@[x as int]);
            proof {
                assert(fs =~= dom_step(pr, s0, nn, node as int)) by {
                    assert forall|x: usize| fs.contains(x) <==> dom_step(pr, s0, nn, node as int).contains(x) by {
                        if x < n && x != node {
                            assert((forall|k: int| 0 <= k < pv.len() ==> #[trigger] ans@[pv[k]]@[x as int]) <==>
                                (forall|k: int| 0 <= k < pv.len() ==> #[trigger] s0[pv[k]].contains(x))) by {
                                assert forall|k: int| 0 <= k < pv.len() implies (#[trigger] ans@[pv[k]]@[x as int] <==> s0[pv[k]].contains(x)) by {
                                    assert(preds@[node as int]@.map_values(|y: usize| y as int)[k] == pv[k]);
                                    assert(pv[k] < n);
                                }
                            }
                        }
                    }
                }
            }
            if !same_flags(&newd, &ans[node]) {
                let ghost old_row = ans@[node as int]@;
                proof {
                    assert forall|i: int| 0 <= i < n && #[trigger] newd@[i] implies old_row[i] by {
                        assert(fs.contains(i as usize));
                        assert(s0[node as int].contains(i as usize));
                    }
                    assert(exists|i: int| 0 <= i < n && !newd@[i] && #[trigger] old_row[i]) by {
                        assert(newd@ != old_row);
                        if forall|i: int| 0 <= i < n ==> newd@[i] == old_row[i] {
                            assert(newd@ =~= old_row);
                        }
                        let i = choose|i: int| 0 <= i < n && newd@[i] != old_row[i];
                        assert(!newd@[i] && old_row[i]);
                    }
                    lemma_count_true_sub(newd@, old_row);
                    lemma_count_marks_update(ans@, node as int, newd);
                }
                let ghost a1 = ans@;
                ans.set(node, newd);
                proof {
                    count = count_marks(ans@);
                    let s1 = flag_sets(ans@, nn);
                    assert(s1 =~= s0.update(node as int, fs));
                    assert forall|u: int| 0 <= u < n implies #[trigger] s1[u].subset_of(s0[u]) by {}
                    assert forall|v: int| 1 <= v < n implies dom_step(pr, s1, nn, v).subset_of(#[trigger] s1[v]) by {
                        lemma_dom_step_mono(pr, s1, s0, nn, v);
                        assert(dom_step(pr, s0, nn, v).subset_of(s0[v]));
                    }
                    assert forall|s: Seq<Set<usize>>| #[trigger] dom_solution(pr, s, nn) implies
                        forall|v: int| 0 <= v < n ==> s[v].subset_of(s1[v]) by {
                        assert forall|v: int| 0 <= v < n implies s[v].subset_of(s1[v]) by {
                            if v == node {
                                lemma_dom_step_mono(pr, s, s0, nn, v);
                            }
                        }
                    }
                    assert forall|x: int| 0 <= x < n implies (ans@[0]@[x] <==> x == 0) by {
                        assert(ans@[0] == a1[0]);
                    }
                }
                flag = true;
            } else {
                proof {
                    assert(newd@ == ans@[node as int]@);
                    assert(flag_sets(ans@, nn)[node as int] =~= fs);
                }
            }
        }
    }
    let mut res: Vec<HashSet<usize>> = Vec::new();
    for v in 0..n
        invariant
            nn == n,
            ans@.len() == n,
            forall|i: int| 0 <= i < n ==> (#[trigger] ans@[i])@.len() == n,
            res@.len() == v,
            forall|u: int| 0 <= u < v ==> (#[trigger] hash_sets(res@)[u]) == flag_sets(ans@, nn)[u],
    {
        broadcast use vstd::std_specs::hash::group_hash_axioms;
        let mut hs: HashSet<usize> = HashSet::new();
        for x in 0..n
            invariant
                nn == n,
                v < n,
                ans@.len() == n,
                forall|i: int| 0 <= i < n ==> (#[trigger] ans@[i])@.len() == n,
                hs@ == Set::new(|y: usize| y < x && ans@[v as int]@[y as int]),
        {
            if ans[v][x] {
                hs.insert(x);
            }
            proof {
                assert(hs@ =~= Set::new(|y: usize| y < x + 1 && ans@[v as int]@[y as int]));
            }
        }
        proof {
            assert(hs@ =~= flag_sets(ans@, nn)[v as int]);
        }
        let ghost r0 = res@;
        let ghost hv = hs@;
        res.push(hs);
        proof {
            assert forall|u: int| 0 <= u < v + 1 implies (#[trigger] hash_sets(res@)[u]) == flag_sets(ans@, nn)[u] by {
                if u < v {
                    assert(res@[u] == r0[u]);
                    assert(hash_sets(r0)[u] == flag_sets(ans@, nn)[u]);
                } else {
                    assert(res@[u]@ == hv);
                }
            }
        }
    }
    proof {
        let s = flag_sets(ans@, nn);
        assert(hash_sets(res@) =~= s);
        assert(s[0] =~= set![0usize]);
    }
    res
}


/// The edges `(i, t)` out of `i`, along the list `ts`, whose target `t` lies in `d`.
pub open spec fn node_back_edges(ts: Seq<int>, d: Set<usize>, i: usize) -> Seq<(usize, usize)>
    decreases ts.len(),
{
    if ts.len() == 0 {
        seq![]
    } else {
        let rest = node_back_edges(ts.drop_last(), d, i);
        if d.contains(ts.last() as usize) {
            rest.push((i, ts.last() as usize))
        } else {
            rest
        }
    }
}

/// The edges out of the first `i` nodes whose target dominates their source, node by node.
pub open spec fn back_edges(succ: Seq<Seq<int>>, dom: Seq<Set<usize>>, i: int) -> Seq<(usize, usize)>
    decreases i,
{
    if i <= 0 {
        seq![]
    } else {
        back_edges(succ, dom, i - 1) + node_back_edges(succ[i - 1], dom[i - 1], (i - 1) as usize)
    }
}

/// The back edges of the graph: every edge `i -> t` whose target `t` is in the dominator
/// set of `i`, taken node by node and along each list of successors.
pub fn calc_loop(g: &Graph<(), ()>, dom: &Vec<HashSet<usize>>) -> (res: Vec<(usize, usize)>)
    requires
        g.wf(),
        dom@.len() >= g.head@.len(),
    ensures
        res@ == back_edges(g.succs(), hash_sets(dom@), g.head@.len() as int),
{
    broadcast use vstd::std_specs::hash::group_hash_axioms;
    let mut ans: Vec<(usize, usize)> = Vec::new();
    let ghost ds = hash_sets(dom@);
    for i in 0..g.head.len()
        invariant
            g.wf(),
            dom@.len() >= g.head@.len(),
            ds == hash_sets(dom@),
            ans@ == back_edges(g.succs(), ds, i as int),
    {
        let succ = g.successors(i);
        let ghost sv = succ@.map_values(|x: usize| x as int);
        let ghost base = ans@;
        assert(sv.take(0) =~= Seq::<int>::empty());
        for k in 0..succ.len()
            invariant
                dom@.len() >= g.head@.len(),
                i < g.head@.len(),
                ds == hash_sets(dom@),
                sv == succ@.map_values(|x: usize| x as int),
                ans@ == base + node_back_edges(sv.take(k as int), ds[i as int], i),
        {
            let t = succ[k];
            proof {
                assert(sv.take(k + 1).drop_last() =~= sv.take(k as int));
                assert(sv.take(k + 1).last() == t as int);
                assert(ds[i as int] == dom@[i as int]@);
            }
            if dom[i].contains(&t) {
                ans.push((i, t));
                proof {
                    assert(ans@ =~= base + node_back_edges(sv.take(k + 1), ds[i as int], i));
                }
            } else {
                proof {
                    assert(ans@ =~= base + node_back_edges(sv.take(k + 1), ds[i as int], i));
                }
            }
        }
        proof {
            assert(sv.take(sv.len() as int) =~= sv);
            assert(sv == g.succs()[i as int]);
        }
    }
    ans
}

/// Every state on a list of outgoing edges lies below `nv` when every edge's target does.
proof fn lemma_out_chain_range<E>(edges: Seq<crate::utils::graph::Edge<E>>, e: int, nv: int)
    requires
        forall|x: int| 0 <= x < edges.len() ==> 0 <= #[trigger] edges[x].to < nv,
    ensures
        forall|k: int| 0 <= k < out_chain(edges, e).len() ==> 0 <= #[trigger] out_chain(edges, e)[k] < nv,
    decreases e + 1,
{
    if 0 <= e < edges.len() && -1 <= edges[e].next < e {
        lemma_out_chain_range(edges, edges[e].next as int, nv);
        let rest = out_chain(edges, edges[e].next as int);
        assert forall|k: int| 0 <= k < out_chain(edges, e).len() implies 0 <= #[trigger] out_chain(edges, e)[k] < nv by {
            if k > 0 {
                assert(out_chain(edges, e)[k] == rest[k - 1]);
            }
        }
    }
}

proof fn lemma_node_back_edges(ts: Seq<int>, d: Set<usize>, i: usize)
    requires
        forall|k: int| 0 <= k < ts.len() ==> 0 <= #[trigger] ts[k] <= usize::MAX,
    ensures
        forall|x: (usize, usize)| #[trigger] node_back_edges(ts, d, i).contains(x) <==> (x.0 == i && ts.contains(x.1 as int) && d.contains(x.1)),
    decreases ts.len(),
{
    if ts.len() > 0 {
        let rest = ts.drop_last();
        lemma_node_back_edges(rest, d, i);
        let t = ts.last();
        assert forall|x: (usize, usize)| #[trigger] node_back_edges(ts, d, i).contains(x) <==> (x.0 == i && ts.contains(x.1 as int) && d.contains(x.1)) by {
            let nb = node_back_edges(rest, d, i);
            if ts.contains(x.1 as int) {
                let k = choose|k: int| 0 <= k < ts.len() && ts[k] == x.1 as int;
                if k < ts.len() - 1 {
                    assert(rest[k] == ts[k]);
                    assert(rest.contains(x.1 as int));
                }
            }
            if rest.contains(x.1 as int) {
                let k = choose|k: int| 0 <= k < rest.len() && rest[k] == x.1 as int;
                assert(ts[k] == rest[k]);
            }
            if d.contains(t as usize) {
                broadcast use vstd::seq_lib::lemma_seq_contains_after_push;
                assert(nb.push((i, t as usize)).contains(x) <==> (nb.contains(x) || x == (i, t as usize)));
                if x == (i, t as usize) {
                    assert(ts[ts.len() - 1] == t);
                }
            } else {
                if x.0 == i && x.1 as int == t {
                    assert(!d.contains(x.1));
                }
            }
        }
    }
}

/// The back edges are exactly the edges `i -> t` of the graph whose target `t` lies in
/// the dominator set of `i`: every such edge is listed, a loop `i -> i` among them since
/// every node dominates itself, and no other pair is.
pub proof fn law_back_edges(g: &Graph<(), ()>, dom: Seq<Set<usize>>)
    requires
        g.wf(),
        dom.len() >= g.head@.len(),
    ensures
        forall|i: usize, t: usize| #[trigger] back_edges(g.succs(), dom, g.head@.len() as int).contains((i, t)) <==> (i < g.head@.len()
            && g.succs()[i as int].contains(t as int) && dom[i as int].contains(t)),
{
    let succ = g.succs();
    assert(g.value.len() == g.value@.len());
    assert forall|i: int, k: int| 0 <= i < succ.len() && 0 <= k < succ[i].len() implies 0 <= #[trigger] succ[i][k] <= usize::MAX by {
        lemma_out_chain_range(g.edges@, g.head@[i] as int, g.value@.len() as int);
        assert(succ[i] == out_chain(g.edges@, g.head@[i] as int));
    }
    assert(g.head.len() == g.head@.len());
    lemma_back_edges_upto(succ, dom, g.head@.len() as int);
}

proof fn lemma_back_edges_upto(succ: Seq<Seq<int>>, dom: Seq<Set<usize>>, n: int)
    requires
        0 <= n <= succ.len(),
        n <= dom.len(),
        n <= usize::MAX,
        forall|i: int, k: int| 0 <= i < succ.len() && 0 <= k < succ[i].len() ==> 0 <= #[trigger] succ[i][k] <= usize::MAX,
    ensures
        forall|i: usize, t: usize| #[trigger] back_edges(succ, dom, n).contains((i, t)) <==> (i < n && succ[i as int].contains(t as int)
            && dom[i as int].contains(t)),
    decreases n,
{
    if n > 0 {
        lemma_back_edges_upto(succ, dom, n - 1);
        let a = back_edges(succ, dom, n - 1);
        let j = (n - 1) as usize;
        let b = node_back_edges(succ[n - 1], dom[n - 1], j);
        assert(forall|k: int| 0 <= k < succ[n - 1].len() ==> 0 <= #[trigger] succ[n - 1][k] <= usize::MAX);
        lemma_node_back_edges(succ[n - 1], dom[n - 1], j);
        assert forall|i: usize, t: usize| #[trigger] back_edges(succ, dom, n).contains((i, t)) <==> (i < n && succ[i as int].contains(t as int)
            && dom[i as int].contains(t)) by {
            if i as int == n - 1 {
                assert(i == j);
            }
            assert((a + b).contains((i, t)) <==> (a.contains((i, t)) || b.contains((i, t)))) by {
                if (a + b).contains((i, t)) {
                    let k = choose|k: int| 0 <= k < (a + b).len() && (a + b)[k] == (i, t);
                    if k < a.len() {
                        assert(a[k] == (i, t));
                    } else {
                        assert(b[k - a.len()] == (i, t));
                    }
                }
                if a.contains((i, t)) {
                    let k = choose|k: int| 0 <= k < a.len() && a[k] == (i, t);
                    assert((a + b)[k] == (i, t));
                }
                if b.contains((i, t)) {
                    let k = choose|k: int| 0 <= k < b.len() && b[k] == (i, t);
                    assert((a + b)[a.len() + k] == (i, t));
                }
            }
        }
    }
}
} // verus!

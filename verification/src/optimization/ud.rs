use vstd::prelude::*;
use crate::utils::graph::Graph;
use super::flow::{solve_flow, flow_in, flow_out, vsets, ilists, Round, round_view, flow_round, some_change};

verus! {

/// Two sets of values for each block: GEN and KILL going in, IN and OUT coming out.
pub type List = Vec<(Vec<usize>, Vec<usize>)>;

/// The first sets of each block.
pub open spec fn firsts(l: Seq<(Vec<usize>, Vec<usize>)>) -> Seq<Set<usize>> {
    l.map_values(|p: (Vec<usize>, Vec<usize>)| p.0@.to_set())
}

/// The second sets of each block.
pub open spec fn seconds(l: Seq<(Vec<usize>, Vec<usize>)>) -> Seq<Set<usize>> {
    l.map_values(|p: (Vec<usize>, Vec<usize>)| p.1@.to_set())
}

/// The lists of predecessors of the first `n` nodes.
fn pred_lists(g: &Graph<(), ()>, n: usize) -> (res: Vec<Vec<usize>>)
    requires
        g.wf(),
        n <= g.value@.len(),
        forall|i: int, k: int| 0 <= i < n && 0 <= k < g.preds()[i].len() ==> 0 <= #[trigger] g.preds()[i][k] < n,
    ensures
        res@.len() == n,
        ilists(res@) == g.preds().take(n as int),
        forall|i: int, k: int| 0 <= i < res@.len() && 0 <= k < res@[i]@.len() ==> (#[trigger] res@[i]@[k]) < res@.len(),
{
    let mut res: Vec<Vec<usize>> = Vec::new();
    for i in 0..n
        invariant
            g.wf(),
            n <= g.value@.len(),
            forall|i2: int, k: int| 0 <= i2 < n && 0 <= k < g.preds()[i2].len() ==> 0 <= #[trigger] g.preds()[i2][k] < n,
            res@.len() == i,
            forall|j: int| 0 <= j < i ==> (#[trigger] res@[j])@.map_values(|y: usize| y as int) == g.preds()[j],
    {
        let p = g.predecessors(i);
        let ghost r0 = res@;
        res.push(p);
        proof {
            assert forall|j: int| 0 <= j < i + 1 implies (#[trigger] res@[j])@.map_values(|y: usize| y as int) == g.preds()[j] by {
                if j < i {
                    assert(res@[j] == r0[j]);
                }
            }
        }
    }
    proof {
        assert(ilists(res@) =~= g.preds().take(n as int));
        assert forall|i: int, k: int| 0 <= i < res@.len() && 0 <= k < res@[i]@.len() implies (#[trigger] res@[i]@[k]) < res@.len() by {
            assert(res@[i]@.map_values(|y: usize| y as int)[k] == g.preds()[i][k]);
        }
    }
    res
}

/// Reaching definitions: the IN and OUT sets of each block of the flow graph `g` from the
/// GEN and KILL sets in `gk` (the least solution of IN = ∪ OUT of the predecessors and
/// OUT = (IN - KILL) ∪ GEN), with the changes of each round of the iteration: the
/// blocks are visited in increasing order, and the rounds go on until one changes nothing.
pub fn calc_with_process(g: &Graph<(), ()>, gk: &List) -> (res: (List, Vec<Round>))
    requires
        g.wf(),
        gk@.len() <= g.value@.len(),
        forall|i: int, k: int| 0 <= i < gk@.len() && 0 <= k < g.preds()[i].len() ==> 0 <= #[trigger] g.preds()[i][k] < gk@.len(),
    ensures
        res.0@.len() == gk@.len(),
        forall|i: int| 0 <= i < gk@.len() ==>
            (#[trigger] res.0@[i]).0@.to_set() == flow_in(g.preds().take(gk@.len() as int), firsts(gk@), seconds(gk@), i)
            && res.0@[i].1@.to_set() == flow_out(g.preds().take(gk@.len() as int), firsts(gk@), seconds(gk@), i),
        res.1@.len() >= 1,
        forall|q: int| 0 <= q < res.1@.len() ==>
            round_view((#[trigger] res.1@[q])@) == flow_round(g.preds().take(gk@.len() as int), firsts(gk@), seconds(gk@), false, q as nat),
        forall|q: int| 0 <= q < res.1@.len() - 1 ==>
            some_change(#[trigger] flow_round(g.preds().take(gk@.len() as int), firsts(gk@), seconds(gk@), false, q as nat)),
        !some_change(flow_round(g.preds().take(gk@.len() as int), firsts(gk@), seconds(gk@), false, (res.1@.len() - 1) as nat)),
{
    let n = gk.len();
    let nbrs = pred_lists(g, n);
    let mut gen: Vec<Vec<usize>> = Vec::new();
    let mut kill: Vec<Vec<usize>> = Vec::new();
    for i in 0..n
        invariant
            n == gk@.len(),
            gen@.len() == i,
            kill@.len() == i,
            forall|j: int| 0 <= j < i ==> (#[trigger] gen@[j])@ == gk@[j].0@,
            forall|j: int| 0 <= j < i ==> (#[trigger] kill@[j])@ == gk@[j].1@,
    {
        let a = gk[i].0.clone();
        let b = gk[i].1.clone();
        assert(a@ =~= gk@[i as int].0@);
        assert(b@ =~= gk@[i as int].1@);
        gen.push(a);
        kill.push(b);
    }
    proof {
        assert(vsets(gen@) =~= firsts(gk@));
        assert(vsets(kill@) =~= seconds(gk@));
    }
    let (ins, outs, rounds) = solve_flow(&nbrs, &gen, &kill, false);
    let mut res: List = Vec::new();
    for i in 0..n
        invariant
            n == gk@.len(),
            ins@.len() == n,
            outs@.len() == n,
            res@.len() == i,
            forall|j: int| 0 <= j < i ==> (#[trigger] res@[j]).0@ == ins@[j]@ && res@[j].1@ == outs@[j]@,
    {
        let a = ins[i].clone();
        let b = outs[i].clone();
        assert(a@ =~= ins@[i as int]@);
        assert(b@ =~= outs@[i as int]@);
        res.push((a, b));
    }
    (res, rounds)
}

} // verus!

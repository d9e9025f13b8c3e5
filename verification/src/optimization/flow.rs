use vstd::prelude::*;
use crate::utils::{closed_under, least_closed, lemma_least_closed_init, lemma_least_closed_step, lemma_least_closed_min, lemma_push_no_dup};

verus! {

/// A fact of a data-flow problem: on the joined side (`false`) or the produced side
/// (`true`) of a block, a value.
pub type Fact<V> = (bool, int, V);

/// The facts that start the analysis: what each block produces.
pub open spec fn flow_init<V>(gen: Seq<Set<V>>) -> Set<Fact<V>> {
    Set::new(|f: Fact<V>| f.0 && 0 <= f.1 < gen.len() && gen[f.1].contains(f.2))
}

/// How facts flow: what a neighbour produces reaches the joined side of a block, and what
/// reaches the joined side of a block and is not removed there is produced by it.
pub open spec fn flow_edge<V>(nbrs: Seq<Seq<int>>, kill: Seq<Set<V>>) -> spec_fn(Fact<V>, Fact<V>) -> bool {
    |a: Fact<V>, b: Fact<V>|
        (a.0 && !b.0 && a.2 == b.2 && 0 <= b.1 < nbrs.len() && nbrs[b.1].contains(a.1))
        || (!a.0 && b.0 && a.1 == b.1 && a.2 == b.2 && 0 <= a.1 < kill.len() && !kill[a.1].contains(a.2))
}

/// The facts that hold: the least solution of the data-flow equations.
pub open spec fn flow_reach<V>(nbrs: Seq<Seq<int>>, gen: Seq<Set<V>>, kill: Seq<Set<V>>) -> Set<Fact<V>> {
    least_closed(flow_init(gen), flow_edge(nbrs, kill))
}

/// The joined side of block `i` in the least solution.
pub open spec fn flow_in<V>(nbrs: Seq<Seq<int>>, gen: Seq<Set<V>>, kill: Seq<Set<V>>, i: int) -> Set<V> {
    Set::new(|d: V| flow_reach(nbrs, gen, kill).contains((false, i, d)))
}

/// The produced side of block `i` in the least solution.
pub open spec fn flow_out<V>(nbrs: Seq<Seq<int>>, gen: Seq<Set<V>>, kill: Seq<Set<V>>, i: int) -> Set<V> {
    Set::new(|d: V| flow_reach(nbrs, gen, kill).contains((true, i, d)))
}

/// The facts that the least solution can justify: a produced value is generated by its
/// block or reaches its joined side and survives; a joined value is produced by a neighbour.
spec fn justified<V>(nbrs: Seq<Seq<int>>, gen: Seq<Set<V>>, kill: Seq<Set<V>>, f: Fact<V>) -> bool {
    let r = flow_reach(nbrs, gen, kill);
    if f.0 {
        (0 <= f.1 < gen.len() && gen[f.1].contains(f.2))
            || (r.contains((false, f.1, f.2)) && 0 <= f.1 < kill.len() && !kill[f.1].contains(f.2))
    } else {
        0 <= f.1 < nbrs.len() && exists|p: int| nbrs[f.1].contains(p) && #[trigger] r.contains((true, p, f.2))
    }
}

/// Every fact of the least solution is justified.
proof fn lemma_reach_justified<V>(nbrs: Seq<Seq<int>>, gen: Seq<Set<V>>, kill: Seq<Set<V>>, f: Fact<V>)
    requires
        flow_reach(nbrs, gen, kill).contains(f),
    ensures
        justified(nbrs, gen, kill, f),
{
    let r = flow_reach(nbrs, gen, kill);
    let init = flow_init(gen);
    let e = flow_edge(nbrs, kill);
    let j = Set::new(|h: Fact<V>| r.contains(h) && justified(nbrs, gen, kill, h));
    assert forall|h: Fact<V>| init.contains(h) implies j.contains(h) by {
        lemma_least_closed_init(init, e, h);
    }
    assert(closed_under(e, j)) by {
        assert forall|a: Fact<V>, b: Fact<V>| j.contains(a) && #[trigger] e(a, b) implies j.contains(b) by {
            lemma_least_closed_step(init, e, a, b);
            if a.0 {
                assert(r.contains((true, a.1, b.2)));
            }
        }
    }
    lemma_least_closed_min(init, e, j);
}

/// The least solution solves the data-flow equations: a block produces what reaches its
/// joined side, less what it removes, with what it generates; and what reaches the joined
/// side of a block is what its neighbours produce.
pub proof fn law_flow_equations<V>(nbrs: Seq<Seq<int>>, gen: Seq<Set<V>>, kill: Seq<Set<V>>, i: int)
    requires
        gen.len() == nbrs.len(),
        kill.len() == nbrs.len(),
        0 <= i < nbrs.len(),
    ensures
        flow_out(nbrs, gen, kill, i) == flow_in(nbrs, gen, kill, i).difference(kill[i]).union(gen[i]),
        flow_in(nbrs, gen, kill, i) == Set::new(|d: V| exists|k: int|
            0 <= k < nbrs[i].len() && #[trigger] flow_out(nbrs, gen, kill, nbrs[i][k]).contains(d)),
{
    let r = flow_reach(nbrs, gen, kill);
    let init = flow_init(gen);
    let e = flow_edge(nbrs, kill);
    let o = flow_out(nbrs, gen, kill, i);
    let n = flow_in(nbrs, gen, kill, i);
    assert forall|d: V| o.contains(d) <==> n.difference(kill[i]).union(gen[i]).contains(d) by {
        if o.contains(d) {
            lemma_reach_justified(nbrs, gen, kill, (true, i, d));
        }
        if gen[i].contains(d) {
            assert(init.contains((true, i, d)));
            lemma_least_closed_init(init, e, (true, i, d));
        } else if n.contains(d) && !kill[i].contains(d) {
            assert(e((false, i, d), (true, i, d)));
            lemma_least_closed_step(init, e, (false, i, d), (true, i, d));
        }
    }
    assert(o =~= n.difference(kill[i]).union(gen[i]));
    let joined_outs = Set::new(|d: V| exists|k: int|
        0 <= k < nbrs[i].len() && #[trigger] flow_out(nbrs, gen, kill, nbrs[i][k]).contains(d));
    assert forall|d: V| n.contains(d) <==> joined_outs.contains(d) by {
        if n.contains(d) {
            lemma_reach_justified(nbrs, gen, kill, (false, i, d));
            let p = choose|p: int| nbrs[i].contains(p) && #[trigger] r.contains((true, p, d));
            let k = choose|k: int| 0 <= k < nbrs[i].len() && nbrs[i][k] == p;
            assert(flow_out(nbrs, gen, kill, nbrs[i][k]).contains(d));
        }
        if joined_outs.contains(d) {
            let k = choose|k: int| 0 <= k < nbrs[i].len() && #[trigger] flow_out(nbrs, gen, kill, nbrs[i][k]).contains(d);
            let p = nbrs[i][k];
            assert(r.contains((true, p, d)));
            assert(nbrs[i].contains(p));
            assert(e((true, p, d), (false, i, d)));
            lemma_least_closed_step(init, e, (true, p, d), (false, i, d));
        }
    }
    assert(n =~= joined_outs);
}

/// The sets that vectors of values stand for.
pub open spec fn vsets(v: Seq<Vec<usize>>) -> Seq<Set<usize>> {
    v.map_values(|x: Vec<usize>| x@.to_set())
}

/// The neighbour lists as integers.
pub open spec fn ilists(v: Seq<Vec<usize>>) -> Seq<Seq<int>> {
    v.map_values(|x: Vec<usize>| x@.map_values(|y: usize| y as int))
}

/// What the neighbours of block `i` produce, joined.
pub open spec fn joined<V>(nbrs: Seq<Seq<int>>, outs: Seq<Set<V>>, i: int) -> Set<V> {
    Set::new(|d: V| exists|k: int| 0 <= k < nbrs[i].len() && #[trigger] outs[nbrs[i][k]].contains(d))
}

/// The values produced by the first `k` blocks.
pub open spec fn gens_upto(gen: Seq<Set<usize>>, k: int) -> Set<usize>
    decreases k,
{
    if k <= 0 {
        Set::empty()
    } else {
        gens_upto(gen, k - 1).union(gen[k - 1])
    }
}

proof fn lemma_gens_upto(gen: Seq<Set<usize>>, k: int)
    requires
        0 <= k <= gen.len(),
        forall|i: int| 0 <= i < gen.len() ==> (#[trigger] gen[i]).finite(),
    ensures
        gens_upto(gen, k).finite(),
        forall|d: usize| gens_upto(gen, k).contains(d) <==> exists|i: int| 0 <= i < k && #[trigger] gen[i].contains(d),
    decreases k,
{
    if k > 0 {
        lemma_gens_upto(gen, k - 1);
        assert forall|d: usize| gens_upto(gen, k).contains(d) <==> exists|i: int| 0 <= i < k && #[trigger] gen[i].contains(d) by {
            if gen[k - 1].contains(d) {
                assert(exists|i: int| 0 <= i < k && #[trigger] gen[i].contains(d));
            }
            if exists|i: int| 0 <= i < k && #[trigger] gen[i].contains(d) {
                let i = choose|i: int| 0 <= i < k && #[trigger] gen[i].contains(d);
                if i < k - 1 {
                    assert(exists|j: int| 0 <= j < k - 1 && #[trigger] gen[j].contains(d));
                }
            }
        }
    }
}

/// The total length of the vectors.
pub open spec fn sum_lens(v: Seq<Vec<usize>>) -> nat
    decreases v.len(),
{
    if v.len() == 0 {
        0
    } else {
        sum_lens(v.drop_last()) + v.last()@.len()
    }
}

proof fn lemma_sum_lens_update(v: Seq<Vec<usize>>, i: int, x: Vec<usize>)
    requires
        0 <= i < v.len(),
    ensures
        sum_lens(v.update(i, x)) + v[i]@.len() == sum_lens(v) + x@.len(),
    decreases v.len(),
{
    let v2 = v.update(i, x);
    if i == v.len() - 1 {
        assert(v2.drop_last() =~= v.drop_last());
    } else {
        assert(v2.drop_last() =~= v.drop_last().update(i, x));
        lemma_sum_lens_update(v.drop_last(), i, x);
    }
}

proof fn lemma_sum_lens_le(v: Seq<Vec<usize>>, b: nat)
    requires
        forall|i: int| 0 <= i < v.len() ==> (#[trigger] v[i])@.len() <= b,
    ensures
        sum_lens(v) <= v.len() * b,
    decreases v.len(),
{
    if v.len() > 0 {
        lemma_sum_lens_le(v.drop_last(), b);
        assert(v.len() * b == (v.len() - 1) * b + b) by (nonlinear_arith);
    }
}

/// A sequence without repetitions that holds all of a shorter one's elements and more is longer.
proof fn lemma_strict_superset_len(a: Seq<usize>, b: Seq<usize>)
    requires
        a.no_duplicates(),
        b.no_duplicates(),
        a.to_set().subset_of(b.to_set()),
        a.to_set() != b.to_set(),
    ensures
        a.len() < b.len(),
{
    a.unique_seq_to_set();
    b.unique_seq_to_set();
    let x = choose|x: usize| b.to_set().contains(x) && !a.to_set().contains(x);
    assert(b.to_set().contains(x) && !a.to_set().contains(x)) by {
        assert(!(a.to_set() =~= b.to_set()));
    }
    assert(a.to_set().subset_of(b.to_set().remove(x)));
    vstd::set_lib::lemma_len_subset(a.to_set(), b.to_set().remove(x));
}

/// `acc` with the values of `b` that it lacks added.
fn add_all(acc: &mut Vec<usize>, b: &Vec<usize>)
    requires
        old(acc)@.no_duplicates(),
    ensures
        final(acc)@.no_duplicates(),
        final(acc)@.to_set() == old(acc)@.to_set().union(b@.to_set()),
{
    let ghost a0 = acc@.to_set();
    for k in 0..b.len()
        invariant
            acc@.no_duplicates(),
            acc@.to_set() == a0.union(b@.take(k as int).to_set()),
    {
        let x = b[k];
        let mut found = false;
        let mut j: usize = 0;
        while j < acc.len()
            invariant
                j <= acc@.len(),
                found == acc@.take(j as int).contains(x),
            decreases acc@.len() - j,
        {
            if acc[j] == x {
                found = true;
            }
            proof {
                assert(acc@.take(j + 1) =~= acc@.take(j as int).push(acc@[j as int]));
                vstd::seq_lib::lemma_seq_contains_after_push(acc@.take(j as int), acc@[j as int], x);
            }
            j = j + 1;
        }
        assert(acc@.take(acc@.len() as int) =~= acc@);
        let ghost s0 = acc@;
        if !found {
            acc.push(x);
            proof {
                lemma_push_no_dup(s0, x);
            }
        }
        proof {
            assert(b@.take(k + 1) =~= b@.take(k as int).push(x));
            b@.take(k as int).lemma_push_to_set_commute(x);
            if !found {
                s0.lemma_push_to_set_commute(x);
            }
            assert(acc@.to_set() =~= a0.union(b@.take(k + 1).to_set()));
        }
    }
    assert(b@.take(b@.len() as int) =~= b@);
}

/// Whether `x` occurs in `v`.
fn holds_value(v: &Vec<usize>, x: usize) -> (res: bool)
    ensures
        res == v@.contains(x),
{
    let mut j: usize = 0;
    while j < v.len()
        invariant
            j <= v@.len(),
            forall|k: int| 0 <= k < j ==> v@[k] != x,
        decreases v@.len() - j,
    {
        if v[j] == x {
            return true;
        }
        j = j + 1;
    }
    false
}

/// Whether two vectors hold the same values.
fn same_values(a: &Vec<usize>, b: &Vec<usize>) -> (res: bool)
    ensures
        res == (a@.to_set() == b@.to_set()),
{
    let mut j: usize = 0;
    while j < a.len()
        invariant
            j <= a@.len(),
            forall|k: int| 0 <= k < j ==> b@.contains(#[trigger] a@[k]),
        decreases a@.len() - j,
    {
        if !holds_value(b, a[j]) {
            proof {
                assert(a@.to_set().contains(a@[j as int]));
                assert(!b@.to_set().contains(a@[j as int]));
            }
            return false;
        }
        j = j + 1;
    }
    let mut j: usize = 0;
    while j < b.len()
        invariant
            j <= b@.len(),
            forall|k: int| 0 <= k < a@.len() ==> b@.contains(#[trigger] a@[k]),
            forall|k: int| 0 <= k < j ==> a@.contains(#[trigger] b@[k]),
        decreases b@.len() - j,
    {
        if !holds_value(a, b[j]) {
            proof {
                assert(b@.to_set().contains(b@[j as int]));
                assert(!a@.to_set().contains(b@[j as int]));
            }
            return false;
        }
        j = j + 1;
    }
    proof {
        assert forall|x: usize| a@.to_set().contains(x) <==> b@.to_set().contains(x) by {
            if a@.contains(x) {
                let k = choose|k: int| 0 <= k < a@.len() && a@[k] == x;
                assert(b@.contains(a@[k]));
            }
            if b@.contains(x) {
                let k = choose|k: int| 0 <= k < b@.len() && b@[k] == x;
                assert(a@.contains(b@[k]));
            }
        }
        assert(a@.to_set() =~= b@.to_set());
    }
    true
}

/// `(a - kill) ∪ gen`, each value once.
fn transfer(a: &Vec<usize>, kill: &Vec<usize>, gen: &Vec<usize>) -> (res: Vec<usize>)
    ensures
        res@.no_duplicates(),
        res@.to_set() == a@.to_set().difference(kill@.to_set()).union(gen@.to_set()),
{
    let mut res: Vec<usize> = Vec::new();
    for k in 0..a.len()
        invariant
            res@.no_duplicates(),
            res@.to_set() == a@.take(k as int).to_set().difference(kill@.to_set()),
    {
        let x = a[k];
        let ghost s0 = res@;
        if !holds_value(kill, x) && !holds_value(&res, x) {
            res.push(x);
            proof {
                lemma_push_no_dup(s0, x);
                s0.lemma_push_to_set_commute(x);
            }
        }
        proof {
            assert(a@.take(k + 1) =~= a@.take(k as int).push(x));
            a@.take(k as int).lemma_push_to_set_commute(x);
            assert(res@.to_set() =~= a@.take(k + 1).to_set().difference(kill@.to_set()));
        }
    }
    assert(a@.take(a@.len() as int) =~= a@);
    add_all(&mut res, gen);
    res
}


/// More produced values give more joined values.
proof fn lemma_joined_mono(nbrs: Seq<Seq<int>>, o1: Seq<Set<usize>>, o2: Seq<Set<usize>>, n: int, j: int)
    requires
        forall|k: int| 0 <= k < nbrs[j].len() ==> 0 <= #[trigger] nbrs[j][k] < n,
        forall|p: int| 0 <= p < n ==> (#[trigger] o1[p]).subset_of(o2[p]),
    ensures
        joined(nbrs, o1, j).subset_of(joined(nbrs, o2, j)),
{
    assert forall|d: usize| joined(nbrs, o1, j).contains(d) implies joined(nbrs, o2, j).contains(d) by {
        let k = choose|k: int| 0 <= k < nbrs[j].len() && #[trigger] o1[nbrs[j][k]].contains(d);
        assert(o2[nbrs[j][k]].contains(d));
    }
}

/// What the neighbours in `nb` produce, joined, each value once.
fn join_outs(nb: &Vec<usize>, outs: &Vec<Vec<usize>>, Ghost(nbrs): Ghost<Seq<Seq<int>>>, Ghost(i): Ghost<int>) -> (res: Vec<usize>)
    requires
        0 <= i < nbrs.len(),
        nbrs[i] == nb@.map_values(|y: usize| y as int),
        forall|k: int| 0 <= k < nb@.len() ==> (#[trigger] nb@[k]) < outs@.len(),
    ensures
        res@.no_duplicates(),
        res@.to_set() == joined(nbrs, vsets(outs@), i),
{
    let mut res: Vec<usize> = Vec::new();
    let ghost os = vsets(outs@);
    for k in 0..nb.len()
        invariant
            0 <= i < nbrs.len(),
            nbrs[i] == nb@.map_values(|y: usize| y as int),
            forall|k2: int| 0 <= k2 < nb@.len() ==> (#[trigger] nb@[k2]) < outs@.len(),
            os == vsets(outs@),
            res@.no_duplicates(),
            res@.to_set() == Set::new(|d: usize| exists|k2: int| 0 <= k2 < k && #[trigger] os[nbrs[i][k2]].contains(d)),
    {
        let ghost r0 = res@.to_set();
        add_all(&mut res, &outs[nb[k]]);
        proof {
            assert(nbrs[i][k as int] == nb@[k as int] as int);
            assert(os[nbrs[i][k as int]] == outs@[nb@[k as int] as int]@.to_set());
            assert forall|d: usize| res@.to_set().contains(d) <==> exists|k2: int| 0 <= k2 < k + 1 && #[trigger] os[nbrs[i][k2]].contains(d) by {
                if res@.to_set().contains(d) && !r0.contains(d) {
                    assert(os[nbrs[i][k as int]].contains(d));
                }
                if exists|k2: int| 0 <= k2 < k + 1 && #[trigger] os[nbrs[i][k2]].contains(d) {
                    let k2 = choose|k2: int| 0 <= k2 < k + 1 && #[trigger] os[nbrs[i][k2]].contains(d);
                    if k2 < k {
                        assert(r0.contains(d));
                    }
                }
            }
            assert(res@.to_set() =~= Set::new(|d: usize| exists|k2: int| 0 <= k2 < k + 1 && #[trigger] os[nbrs[i][k2]].contains(d)));
        }
    }
    proof {
        assert(res@.to_set() =~= joined(nbrs, os, i));
    }
    res
}

/// The joined and the produced set of each block at a point of the iteration.
pub type FlowSets<V> = (Seq<Set<V>>, Seq<Set<V>>);

/// The sets before the first round: nothing joined, each block producing what it generates.
pub open spec fn flow_start<V>(gen: Seq<Set<V>>) -> FlowSets<V> {
    (Seq::new(gen.len(), |i: int| Set::<V>::empty()), gen)
}

/// A visit of block `i`: join what its neighbours produce; where that differs from what
/// was joined before, keep it, produce `(joined - kill) ∪ gen`, and report both.
pub open spec fn flow_visit<V>(nbrs: Seq<Seq<int>>, gen: Seq<Set<V>>, kill: Seq<Set<V>>, st: FlowSets<V>, i: int)
    -> (FlowSets<V>, Option<(Set<V>, Set<V>)>)
{
    let j = joined(nbrs, st.1, i);
    if j == st.0[i] {
        (st, None)
    } else {
        let o = j.difference(kill[i]).union(gen[i]);
        ((st.0.update(i, j), st.1.update(i, o)), Some((j, o)))
    }
}

/// The block that a round visits `k`-th (counting from 1) among `n`.
pub open spec fn visit_order(n: int, backward: bool, k: int) -> int {
    if backward { n - k } else { k - 1 }
}

/// The first `k` visits of a round from `st`: the sets after them, and for each block what
/// its visit reported (`None` where it changed nothing or is not visited yet).
pub open spec fn flow_pass<V>(nbrs: Seq<Seq<int>>, gen: Seq<Set<V>>, kill: Seq<Set<V>>, backward: bool, st: FlowSets<V>, k: nat)
    -> (FlowSets<V>, Seq<Option<(Set<V>, Set<V>)>>)
    decreases k,
{
    if k == 0 {
        (st, Seq::new(nbrs.len(), |i: int| None))
    } else {
        let prev = flow_pass(nbrs, gen, kill, backward, st, (k - 1) as nat);
        let i = visit_order(nbrs.len() as int, backward, k as int);
        let v = flow_visit(nbrs, gen, kill, prev.0, i);
        (v.0, prev.1.update(i, v.1))
    }
}

/// The sets after `r` rounds.
pub open spec fn flow_after<V>(nbrs: Seq<Seq<int>>, gen: Seq<Set<V>>, kill: Seq<Set<V>>, backward: bool, r: nat) -> FlowSets<V>
    decreases r,
{
    if r == 0 {
        flow_start(gen)
    } else {
        flow_pass(nbrs, gen, kill, backward, flow_after(nbrs, gen, kill, backward, (r - 1) as nat), nbrs.len()).0
    }
}

/// What each block reports in round `r` (counting from 0).
pub open spec fn flow_round<V>(nbrs: Seq<Seq<int>>, gen: Seq<Set<V>>, kill: Seq<Set<V>>, backward: bool, r: nat)
    -> Seq<Option<(Set<V>, Set<V>)>>
{
    flow_pass(nbrs, gen, kill, backward, flow_after(nbrs, gen, kill, backward, r), nbrs.len()).1
}

/// Whether some block reported a change.
pub open spec fn some_change<V>(rec: Seq<Option<(Set<V>, Set<V>)>>) -> bool {
    exists|i: int| 0 <= i < rec.len() && #[trigger] rec[i] is Some
}

/// The sets that a recorded round stands for.
pub open spec fn round_view(r: Seq<Option<(Vec<usize>, Vec<usize>)>>) -> Seq<Option<(Set<usize>, Set<usize>)>> {
    r.map_values(|c: Option<(Vec<usize>, Vec<usize>)>| match c {
        Some(p) => Some((p.0@.to_set(), p.1@.to_set())),
        None => None,
    })
}

/// A block not visited yet reports nothing.
proof fn lemma_pass_unvisited<V>(nbrs: Seq<Seq<int>>, gen: Seq<Set<V>>, kill: Seq<Set<V>>, backward: bool, st: FlowSets<V>, k: nat, j: int)
    requires
        k <= nbrs.len(),
        0 <= j < nbrs.len(),
        if backward { j < nbrs.len() - k } else { j >= k },
    ensures
        flow_pass(nbrs, gen, kill, backward, st, k).1.len() == nbrs.len(),
        flow_pass(nbrs, gen, kill, backward, st, k).1[j] is None,
    decreases k,
{
    if k > 0 {
        lemma_pass_unvisited(nbrs, gen, kill, backward, st, (k - 1) as nat, j);
    }
}

/// The new sets of each block in one round, where they changed.
pub type Round = Vec<Option<(Vec<usize>, Vec<usize>)>>;

/// Solves the data-flow equations by rounds: in each round every block, in increasing
/// order (decreasing when `backward`), joins what its neighbours produce and, where that
/// changed, produces `(joined - kill) ∪ gen`; the rounds stop when nothing changes. The
/// result is the least solution: the joined and the produced sets of each block, and
/// the changes of each round.
#[verifier::rlimit(80)]
pub fn solve_flow(nbrs: &Vec<Vec<usize>>, gen: &Vec<Vec<usize>>, kill: &Vec<Vec<usize>>, backward: bool)
    -> (res: (Vec<Vec<usize>>, Vec<Vec<usize>>, Vec<Round>))
    requires
        gen@.len() == nbrs@.len(),
        kill@.len() == nbrs@.len(),
        forall|i: int, k: int| 0 <= i < nbrs@.len() && 0 <= k < nbrs@[i]@.len() ==> (#[trigger] nbrs@[i]@[k]) < nbrs@.len(),
    ensures
        res.0@.len() == nbrs@.len(),
        res.1@.len() == nbrs@.len(),
        forall|i: int| 0 <= i < nbrs@.len() ==> (#[trigger] res.0@[i])@.no_duplicates()
            && res.0@[i]@.to_set() == flow_in(ilists(nbrs@), vsets(gen@), vsets(kill@), i),
        forall|i: int| 0 <= i < nbrs@.len() ==> (#[trigger] res.1@[i])@.no_duplicates()
            && res.1@[i]@.to_set() == flow_out(ilists(nbrs@), vsets(gen@), vsets(kill@), i),
        res.2@.len() >= 1,
        forall|q: int| 0 <= q < res.2@.len() ==>
            round_view((#[trigger] res.2@[q])@) == flow_round(ilists(nbrs@), vsets(gen@), vsets(kill@), backward, q as nat),
        forall|q: int| 0 <= q < res.2@.len() - 1 ==>
            some_change(#[trigger] flow_round(ilists(nbrs@), vsets(gen@), vsets(kill@), backward, q as nat)),
        !some_change(flow_round(ilists(nbrs@), vsets(gen@), vsets(kill@), backward, (res.2@.len() - 1) as nat)),
{
    let n = nbrs.len();
    let ghost nl = ilists(nbrs@);
    let ghost gs = vsets(gen@);
    let ghost ks = vsets(kill@);
    let ghost r = flow_reach(nl, gs, ks);
    let ghost u = gens_upto(gs, n as int);
    proof {
        assert forall|i: int| 0 <= i < gs.len() implies (#[trigger] gs[i]).finite() by {
            vstd::seq_lib::seq_to_set_is_finite(gen@[i]@);
        }
        lemma_gens_upto(gs, n as int);
        assert forall|i: int, k: int| 0 <= i < n && 0 <= k < nl[i].len() implies 0 <= #[trigger] nl[i][k] < n by {
            assert(nl[i][k] == nbrs@[i]@[k] as int);
        }
    }
    let mut ins: Vec<Vec<usize>> = Vec::new();
    let mut outs: Vec<Vec<usize>> = Vec::new();
    for i in 0..n
        invariant
            n == nbrs@.len(),
            gen@.len() == n,
            kill@.len() == n,
            gs == vsets(gen@),
            ks == vsets(kill@),
            r == flow_reach(nl, gs, ks),
            ins@.len() == i,
            outs@.len() == i,
            forall|j: int| 0 <= j < i ==> (#[trigger] ins@[j])@.len() == 0,
            forall|j: int| 0 <= j < i ==> (#[trigger] outs@[j])@.no_duplicates(),
            forall|j: int| 0 <= j < i ==> #[trigger] vsets(outs@)[j] == gs[j],
            forall|j: int, d: usize| 0 <= j < i && #[trigger] vsets(outs@)[j].contains(d) ==> r.contains((true, j, d)),
    {
        let empty: Vec<usize> = Vec::new();
        let o = transfer(&empty, &kill[i], &gen[i]);
        proof {
            assert(o@.to_set() =~= gs[i as int]);
            assert forall|d: usize| o@.to_set().contains(d) implies r.contains((true, i as int, d)) by {
                assert(flow_init(gs).contains((true, i as int, d)));
                lemma_least_closed_init(flow_init(gs), flow_edge(nl, ks), (true, i as int, d));
            }
        }
        let ghost o0 = outs@;
        let ghost ov = o@;
        ins.push(Vec::new());
        outs.push(o);
        proof {
            assert forall|j: int| 0 <= j < i + 1 implies #[trigger] vsets(outs@)[j] == gs[j] by {
                if j < i {
                    assert(outs@[j] == o0[j]);
                    assert(vsets(o0)[j] == gs[j]);
                } else {
                    assert(outs@[j]@ == ov);
                }
            }
        }
    }
    let ghost mut total: nat = sum_lens(ins@);
    proof {
        assert(total == 0) by {
            assert forall|m: int| 0 <= m <= n implies sum_lens(ins@.take(m)) == 0 by {
                lemma_sum_zero(ins@, m);
            }
            assert(ins@.take(n as int) =~= ins@);
        }
    }
    let mut rounds: Vec<Round> = Vec::new();
    let mut flag = true;
    proof {
        assert(vsets(ins@) =~= flow_start(gs).0) by {
            assert forall|j: int| 0 <= j < n implies #[trigger] vsets(ins@)[j] =~= Set::<usize>::empty() by {
                assert(ins@[j]@.len() == 0);
            }
        }
        assert(vsets(outs@) =~= flow_start(gs).1);
    }
    while flag
        invariant
            vsets(ins@) == flow_after(nl, gs, ks, backward, rounds@.len() as nat).0,
            vsets(outs@) == flow_after(nl, gs, ks, backward, rounds@.len() as nat).1,
            forall|q: int| 0 <= q < rounds@.len() ==>
                round_view((#[trigger] rounds@[q])@) == flow_round(nl, gs, ks, backward, q as nat),
            forall|q: int| 0 <= q < rounds@.len() - 1 ==> some_change(#[trigger] flow_round(nl, gs, ks, backward, q as nat)),
            rounds@.len() == 0 ==> flag,
            rounds@.len() > 0 ==> (flag <==> some_change(flow_round(nl, gs, ks, backward, (rounds@.len() - 1) as nat))),
            n == nbrs@.len(),
            gen@.len() == n,
            kill@.len() == n,
            nl == ilists(nbrs@),
            gs == vsets(gen@),
            ks == vsets(kill@),
            r == flow_reach(nl, gs, ks),
            u == gens_upto(gs, n as int),
            u.finite(),
            forall|d: usize| u.contains(d) <==> exists|i: int| 0 <= i < n && #[trigger] gs[i].contains(d),
            forall|i: int, k: int| 0 <= i < n && 0 <= k < nl[i].len() ==> 0 <= #[trigger] nl[i][k] < n,
            forall|i: int, k: int| 0 <= i < nbrs@.len() && 0 <= k < nbrs@[i]@.len() ==> (#[trigger] nbrs@[i]@[k]) < nbrs@.len(),
            ins@.len() == n,
            outs@.len() == n,
            forall|i: int| 0 <= i < n ==> (#[trigger] ins@[i])@.no_duplicates(),
            forall|i: int| 0 <= i < n ==> (#[trigger] outs@[i])@.no_duplicates(),
            forall|i: int, d: usize| 0 <= i < n && #[trigger] vsets(ins@)[i].contains(d) ==> r.contains((false, i, d)),
            forall|i: int, d: usize| 0 <= i < n && #[trigger] vsets(outs@)[i].contains(d) ==> r.contains((true, i, d)),
            forall|i: int| 0 <= i < n ==> #[trigger] vsets(outs@)[i] == vsets(ins@)[i].difference(ks[i]).union(gs[i]),
            forall|i: int| 0 <= i < n ==> (#[trigger] vsets(ins@)[i]).subset_of(joined(nl, vsets(outs@), i)),
            forall|i: int| 0 <= i < n ==> (#[trigger] vsets(ins@)[i]).subset_of(u),
            !flag ==> forall|i: int| 0 <= i < n ==> #[trigger] vsets(ins@)[i] == joined(nl, vsets(outs@), i),
            total == sum_lens(ins@),
        decreases n * u.len() - total + if flag { 1int } else { 0int },
    {
        proof {
            assert forall|i: int| 0 <= i < n implies (#[trigger] ins@[i])@.len() <= u.len() by {
                assert forall|k: int| 0 <= k < ins@[i]@.len() implies u.contains(#[trigger] ins@[i]@[k]) by {
                    assert(vsets(ins@)[i].contains(ins@[i]@[k]));
                }
                crate::utils::lemma_distinct_within_len(ins@[i]@, u);
            }
            lemma_sum_lens_le(ins@, u.len());
        }
        assert(rounds@.len() > 0 ==> some_change(flow_round(nl, gs, ks, backward, (rounds@.len() - 1) as nat)));
        flag = false;
        let ghost i0 = ins@;
        let ghost out0 = outs@;
        let ghost t0 = total;
        let ghost st0 = flow_after(nl, gs, ks, backward, rounds@.len() as nat);
        let mut round: Round = Vec::new();
        for k in 0..n
            invariant
                round@.len() == k,
                forall|j: int| 0 <= j < k ==> (#[trigger] round@[j]) is None,
        {
            round.push(None);
        }
        proof {
            assert(round_view(round@) =~= flow_pass(nl, gs, ks, backward, st0, 0).1);
        }
        for idx in 0..n
            invariant
                vsets(ins@) == flow_pass(nl, gs, ks, backward, st0, idx as nat).0.0,
                vsets(outs@) == flow_pass(nl, gs, ks, backward, st0, idx as nat).0.1,
                round_view(round@) == flow_pass(nl, gs, ks, backward, st0, idx as nat).1,
                flag <==> some_change(round_view(round@)),
                n == nbrs@.len(),
                gen@.len() == n,
                kill@.len() == n,
                nl == ilists(nbrs@),
                gs == vsets(gen@),
                ks == vsets(kill@),
                r == flow_reach(nl, gs, ks),
                u == gens_upto(gs, n as int),
                forall|d: usize| u.contains(d) <==> exists|i: int| 0 <= i < n && #[trigger] gs[i].contains(d),
                forall|i: int, k: int| 0 <= i < n && 0 <= k < nl[i].len() ==> 0 <= #[trigger] nl[i][k] < n,
                forall|i: int, k: int| 0 <= i < nbrs@.len() && 0 <= k < nbrs@[i]@.len() ==> (#[trigger] nbrs@[i]@[k]) < nbrs@.len(),
                round@.len() == n,
                ins@.len() == n,
                outs@.len() == n,
                forall|i: int| 0 <= i < n ==> (#[trigger] ins@[i])@.no_duplicates(),
                forall|i: int| 0 <= i < n ==> (#[trigger] outs@[i])@.no_duplicates(),
                forall|i: int, d: usize| 0 <= i < n && #[trigger] vsets(ins@)[i].contains(d) ==> r.contains((false, i, d)),
                forall|i: int, d: usize| 0 <= i < n && #[trigger] vsets(outs@)[i].contains(d) ==> r.contains((true, i, d)),
                forall|i: int| 0 <= i < n ==> #[trigger] vsets(outs@)[i] == vsets(ins@)[i].difference(ks[i]).union(gs[i]),
                forall|i: int| 0 <= i < n ==> (#[trigger] vsets(ins@)[i]).subset_of(joined(nl, vsets(outs@), i)),
                forall|i: int| 0 <= i < n ==> (#[trigger] vsets(ins@)[i]).subset_of(u),
                total == sum_lens(ins@),
                flag ==> total > t0,
                !flag ==> total == t0 && ins@ == i0 && outs@ == out0,
                !flag && !backward ==> forall|j: int| 0 <= j < idx ==> #[trigger] vsets(i0)[j] == joined(nl, vsets(out0), j),
                !flag && backward ==> forall|j: int| n - idx <= j < n ==> #[trigger] vsets(i0)[j] == joined(nl, vsets(out0), j),
        {
            let i = if backward { n - 1 - idx } else { idx };
            proof {
                assert forall|k: int| 0 <= k < nbrs@[i as int]@.len() implies (#[trigger] nbrs@[i as int]@[k]) < outs@.len() by {}
            }
            let new_in = join_outs(&nbrs[i], &outs, Ghost(nl), Ghost(i as int));
            if !same_values(&new_in, &ins[i]) {
                let ghost os = vsets(outs@);
                let ghost is = vsets(ins@);
                let ghost jn = joined(nl, os, i as int);
                let new_out = transfer(&new_in, &kill[i], &gen[i]);
                proof {
                    assert(ks[i as int] == kill@[i as int]@.to_set());
                    assert(gs[i as int] == gen@[i as int]@.to_set());
                    assert forall|d: usize| new_in@.to_set().contains(d) implies r.contains((false, i as int, d)) by {
                        let k = choose|k: int| 0 <= k < nl[i as int].len() && #[trigger] os[nl[i as int][k]].contains(d);
                        let p = nl[i as int][k];
                        assert(r.contains((true, p, d)));
                        assert(nl[i as int].contains(p));
                        assert((flow_edge(nl, ks))((true, p, d), (false, i as int, d)));
                        lemma_least_closed_step(flow_init(gs), flow_edge(nl, ks), (true, p, d), (false, i as int, d));
                    }
                    assert forall|d: usize| new_out@.to_set().contains(d) implies r.contains((true, i as int, d)) by {
                        if gs[i as int].contains(d) {
                            assert(flow_init(gs).contains((true, i as int, d)));
                            lemma_least_closed_init(flow_init(gs), flow_edge(nl, ks), (true, i as int, d));
                        } else {
                            assert(r.contains((false, i as int, d)));
                            assert((flow_edge(nl, ks))((false, i as int, d), (true, i as int, d)));
                            lemma_least_closed_step(flow_init(gs), flow_edge(nl, ks), (false, i as int, d), (true, i as int, d));
                        }
                    }
                    assert(is[i as int].subset_of(jn));
                    lemma_strict_superset_len(ins@[i as int]@, new_in@);
                    lemma_sum_lens_update(ins@, i as int, new_in);
                }
                let ghost ins_before = ins@;
                let ghost outs_before = outs@;
                let c_in = new_in.clone();
                let c_out = new_out.clone();
                ins.set(i, new_in);
                outs.set(i, new_out);
                round.set(i, Some((c_in, c_out)));
                proof {
                    total = sum_lens(ins@);
                    let os2 = vsets(outs@);
                    let is2 = vsets(ins@);
                    assert(is2 =~= is.update(i as int, jn));
                    assert(os2 =~= os.update(i as int, jn.difference(ks[i as int]).union(gs[i as int])));
                    assert(i as int == visit_order(n as int, backward, idx + 1));
                    assert(c_in@ =~= new_in@);
                    assert(c_out@ =~= new_out@);
                    assert(round_view(round@) =~= flow_pass(nl, gs, ks, backward, st0, (idx + 1) as nat).1);
                    assert(round_view(round@)[i as int] is Some);
                    assert forall|p: int| 0 <= p < n implies (#[trigger] os[p]).subset_of(os2[p]) by {
                        if p == i as int {
                            assert(is[p].subset_of(jn));
                        }
                    }
                    assert forall|j: int| 0 <= j < n implies (#[trigger] is2[j]).subset_of(joined(nl, os2, j)) by {
                        lemma_joined_mono(nl, os, os2, n as int, j);
                    }
                    assert forall|j: int| 0 <= j < n implies (#[trigger] is2[j]).subset_of(u) by {
                        if j == i as int {
                            assert forall|d: usize| jn.contains(d) implies u.contains(d) by {
                                let k = choose|k: int| 0 <= k < nl[j].len() && #[trigger] os[nl[j][k]].contains(d);
                                let p = nl[j][k];
                                if !gs[p].contains(d) {
                                    assert(is[p].contains(d));
                                }
                            }
                        }
                    }
                    assert forall|j: int, d: usize| 0 <= j < n && #[trigger] is2[j].contains(d) implies r.contains((false, j, d)) by {
                        if j != i as int {
                            assert(is[j].contains(d));
                        }
                    }
                    assert forall|j: int, d: usize| 0 <= j < n && #[trigger] os2[j].contains(d) implies r.contains((true, j, d)) by {
                        if j != i as int {
                            assert(os[j].contains(d));
                        }
                    }
                }
                flag = true;
            } else {
                proof {
                    assert(i as int == visit_order(n as int, backward, idx + 1));
                    lemma_pass_unvisited(nl, gs, ks, backward, st0, idx as nat, i as int);
                    assert(round_view(round@) =~= flow_pass(nl, gs, ks, backward, st0, (idx + 1) as nat).1);
                    assert(vsets(ins@)[i as int] == joined(nl, vsets(outs@), i as int));
                    if !flag {
                        assert(vsets(i0)[i as int] == joined(nl, vsets(out0), i as int));
                    }
                }
            }
        }
        proof {
            if !flag {
                assert forall|i: int| 0 <= i < n implies #[trigger] vsets(ins@)[i] == joined(nl, vsets(outs@), i) by {
                    assert(vsets(i0)[i] == joined(nl, vsets(out0), i));
                }
            }
            assert forall|i: int| 0 <= i < n implies (#[trigger] ins@[i])@.len() <= u.len() by {
                assert forall|k: int| 0 <= k < ins@[i]@.len() implies u.contains(#[trigger] ins@[i]@[k]) by {
                    assert(vsets(ins@)[i].contains(ins@[i]@[k]));
                }
                crate::utils::lemma_distinct_within_len(ins@[i]@, u);
            }
            lemma_sum_lens_le(ins@, u.len());
        }
        let ghost rs0 = rounds@;
        rounds.push(round);
        proof {
            let r0 = rs0.len();
            assert(flow_after(nl, gs, ks, backward, (r0 + 1) as nat) == flow_pass(nl, gs, ks, backward, st0, n as nat).0);
            assert(flow_round(nl, gs, ks, backward, r0 as nat) == flow_pass(nl, gs, ks, backward, st0, n as nat).1);
            assert forall|q: int| 0 <= q < rounds@.len() implies round_view((#[trigger] rounds@[q])@) == flow_round(nl, gs, ks, backward, q as nat) by {
                if q < r0 {
                    assert(rounds@[q] == rs0[q]);
                }
            }
            assert forall|q: int| 0 <= q < rounds@.len() - 1 implies some_change(#[trigger] flow_round(nl, gs, ks, backward, q as nat)) by {
                if q == r0 - 1 {
                    assert(some_change(flow_round(nl, gs, ks, backward, (r0 - 1) as nat)));
                }
            }
        }
    }
    proof {
        let is = vsets(ins@);
        let os = vsets(outs@);
        let c = Set::new(|f: Fact<usize>| 0 <= f.1 < n && if f.0 { os[f.1].contains(f.2) } else { is[f.1].contains(f.2) });
        assert(flow_init(gs).subset_of(c));
        assert(closed_under(flow_edge(nl, ks), c)) by {
            assert forall|a: Fact<usize>, b: Fact<usize>| c.contains(a) && #[trigger] (flow_edge(nl, ks))(a, b) implies c.contains(b) by {
                if a.0 && !b.0 {
                    let k = choose|k: int| 0 <= k < nl[b.1].len() && nl[b.1][k] == a.1;
                    assert(os[nl[b.1][k]].contains(b.2));
                    assert(joined(nl, os, b.1).contains(b.2));
                }
            }
        }
        lemma_least_closed_min(flow_init(gs), flow_edge(nl, ks), c);
        assert forall|i: int| 0 <= i < n implies (#[trigger] ins@[i])@.to_set() == flow_in(nl, gs, ks, i) by {
            assert(ins@[i]@.to_set() =~= flow_in(nl, gs, ks, i)) by {
                assert forall|d: usize| flow_in(nl, gs, ks, i).contains(d) implies ins@[i]@.to_set().contains(d) by {
                    assert(c.contains((false, i, d)));
                    assert(is[i] == ins@[i]@.to_set());
                }
                assert forall|d: usize| ins@[i]@.to_set().contains(d) implies flow_in(nl, gs, ks, i).contains(d) by {
                    assert(is[i].contains(d));
                }
            }
        }
        assert forall|i: int| 0 <= i < n implies (#[trigger] outs@[i])@.to_set() == flow_out(nl, gs, ks, i) by {
            assert(outs@[i]@.to_set() =~= flow_out(nl, gs, ks, i)) by {
                assert forall|d: usize| flow_out(nl, gs, ks, i).contains(d) implies outs@[i]@.to_set().contains(d) by {
                    assert(c.contains((true, i, d)));
                    assert(os[i] == outs@[i]@.to_set());
                }
                assert forall|d: usize| outs@[i]@.to_set().contains(d) implies flow_out(nl, gs, ks, i).contains(d) by {
                    assert(os[i].contains(d));
                }
            }
        }
    }
    (ins, outs, rounds)
}

/// Empty vectors add up to nothing.
proof fn lemma_sum_zero(v: Seq<Vec<usize>>, m: int)
    requires
        0 <= m <= v.len(),
        forall|j: int| 0 <= j < v.len() ==> (#[trigger] v[j])@.len() == 0,
    ensures
        sum_lens(v.take(m)) == 0,
    decreases m,
{
    if m > 0 {
        assert(v.take(m).drop_last() =~= v.take(m - 1));
        lemma_sum_zero(v, m - 1);
    }
}
} // verus!

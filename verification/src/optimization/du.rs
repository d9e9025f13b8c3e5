use vstd::prelude::*;
use vstd::string::*;
use crate::grammar::order::{strict_total, sorted_by, lex_lt, name_lt, char_lt, lemma_char_strict_total, lemma_lex_strict_total,
    lemma_insert_sorted, compare_names};
use crate::utils::show::{Shown, decimal};
use crate::utils::graph::Graph;
use crate::utils::{closed_under, least_closed, lemma_least_closed_init, lemma_least_closed_step, lemma_least_closed_min};
use super::flow::{
    solve_flow, flow_in, flow_out, flow_init, flow_edge, flow_reach, vsets, ilists, Fact, FlowSets, joined, flow_visit,
    flow_pass, flow_after, flow_round, visit_order, some_change, round_view, flow_start,
};

verus! {

/// A use or a definition: a variable and a program point.
pub type VarPoint = (String, usize);

/// Two sets of variable points for each block: USE and DEF going in, IN_L and OUT_L
/// coming out.
pub type List = Vec<(Vec<VarPoint>, Vec<VarPoint>)>;

/// The abstract value of a variable point.
pub open spec fn point_view(f: VarPoint) -> (Seq<char>, usize) {
    (f.0@, f.1)
}

/// The set of variable points that a vector lists.
pub open spec fn point_set(v: Seq<VarPoint>) -> Set<(Seq<char>, usize)> {
    v.map_values(|f: VarPoint| point_view(f)).to_set()
}

/// The first sets of each block.
pub open spec fn first_points(l: Seq<(Vec<VarPoint>, Vec<VarPoint>)>) -> Seq<Set<(Seq<char>, usize)>> {
    l.map_values(|p: (Vec<VarPoint>, Vec<VarPoint>)| point_set(p.0@))
}

/// The second sets of each block.
pub open spec fn second_points(l: Seq<(Vec<VarPoint>, Vec<VarPoint>)>) -> Seq<Set<(Seq<char>, usize)>> {
    l.map_values(|p: (Vec<VarPoint>, Vec<VarPoint>)| point_set(p.1@))
}

/// The variable points of a table, by number.
pub open spec fn table_view(tab: Seq<VarPoint>) -> Seq<(Seq<char>, usize)> {
    tab.map_values(|f: VarPoint| point_view(f))
}

/// No variable point occurs twice in the table.
pub open spec fn distinct_points(t: Seq<(Seq<char>, usize)>) -> bool {
    forall|i: int, j: int| 0 <= i < t.len() && 0 <= j < t.len() && i != j ==> t[i] != t[j]
}

/// The variable points numbered by `s`.
pub open spec fn image(t: Seq<(Seq<char>, usize)>, s: Set<usize>) -> Set<(Seq<char>, usize)> {
    Set::new(|x: (Seq<char>, usize)| exists|d: usize| s.contains(d) && d < t.len() && #[trigger] t[d as int] == x)
}

/// Numbering the variable points one to one leaves the data-flow solution the same.
proof fn lemma_flow_image(
    nbrs: Seq<Seq<int>>,
    t: Seq<(Seq<char>, usize)>,
    gen_id: Seq<Set<usize>>,
    kill_id: Seq<Set<usize>>,
    gen_f: Seq<Set<(Seq<char>, usize)>>,
    kill_f: Seq<Set<(Seq<char>, usize)>>,
)
    requires
        distinct_points(t),
        gen_id.len() == gen_f.len(),
        kill_id.len() == kill_f.len(),
        forall|i: int, d: usize| 0 <= i < gen_id.len() && #[trigger] gen_id[i].contains(d) ==> d < t.len(),
        forall|i: int, d: usize| 0 <= i < kill_id.len() && #[trigger] kill_id[i].contains(d) ==> d < t.len(),
        forall|i: int| 0 <= i < gen_id.len() ==> #[trigger] gen_f[i] == image(t, gen_id[i]),
        forall|i: int| 0 <= i < kill_id.len() ==> #[trigger] kill_f[i] == image(t, kill_id[i]),
    ensures
        forall|s: bool, i: int, x: (Seq<char>, usize)| #[trigger] flow_reach(nbrs, gen_f, kill_f).contains((s, i, x)) <==>
            exists|d: usize| d < t.len() && t[d as int] == x && #[trigger] flow_reach(nbrs, gen_id, kill_id).contains((s, i, d)),
{
    let rf = flow_reach(nbrs, gen_f, kill_f);
    let ri = flow_reach(nbrs, gen_id, kill_id);
    let a = Set::new(|f: Fact<(Seq<char>, usize)>| exists|d: usize| d < t.len() && t[d as int] == f.2 && #[trigger] ri.contains((f.0, f.1, d)));
    assert(flow_init(gen_f).subset_of(a)) by {
        assert forall|f: Fact<(Seq<char>, usize)>| flow_init(gen_f).contains(f) implies a.contains(f) by {
            assert(image(t, gen_id[f.1]).contains(f.2));
            let d = choose|d: usize| gen_id[f.1].contains(d) && d < t.len() && #[trigger] t[d as int] == f.2;
            assert(flow_init(gen_id).contains((f.0, f.1, d)));
            lemma_least_closed_init(flow_init(gen_id), flow_edge(nbrs, kill_id), (f.0, f.1, d));
        }
    }
    assert(closed_under(flow_edge(nbrs, kill_f), a)) by {
        assert forall|x: Fact<(Seq<char>, usize)>, y: Fact<(Seq<char>, usize)>| a.contains(x) && #[trigger] (flow_edge(nbrs, kill_f))(x, y) implies a.contains(y) by {
            let d = choose|d: usize| d < t.len() && t[d as int] == x.2 && #[trigger] ri.contains((x.0, x.1, d));
            if !x.0 {
                if kill_id[x.1].contains(d) {
                    assert(image(t, kill_id[x.1]).contains(x.2));
                }
            }
            assert((flow_edge(nbrs, kill_id))((x.0, x.1, d), (y.0, y.1, d)));
            lemma_least_closed_step(flow_init(gen_id), flow_edge(nbrs, kill_id), (x.0, x.1, d), (y.0, y.1, d));
        }
    }
    lemma_least_closed_min(flow_init(gen_f), flow_edge(nbrs, kill_f), a);
    let b = Set::new(|f: Fact<usize>| f.2 < t.len() && rf.contains((f.0, f.1, t[f.2 as int])));
    assert(flow_init(gen_id).subset_of(b)) by {
        assert forall|f: Fact<usize>| flow_init(gen_id).contains(f) implies b.contains(f) by {
            assert(image(t, gen_id[f.1]).contains(t[f.2 as int]));
            assert(flow_init(gen_f).contains((f.0, f.1, t[f.2 as int])));
            lemma_least_closed_init(flow_init(gen_f), flow_edge(nbrs, kill_f), (f.0, f.1, t[f.2 as int]));
        }
    }
    assert(closed_under(flow_edge(nbrs, kill_id), b)) by {
        assert forall|x: Fact<usize>, y: Fact<usize>| b.contains(x) && #[trigger] (flow_edge(nbrs, kill_id))(x, y) implies b.contains(y) by {
            let v = t[x.2 as int];
            if !x.0 {
                if kill_f[x.1].contains(v) {
                    let e = choose|e: usize| kill_id[x.1].contains(e) && e < t.len() && #[trigger] t[e as int] == v;
                    assert(e == x.2);
                }
            }
            assert((flow_edge(nbrs, kill_f))((x.0, x.1, v), (y.0, y.1, v)));
            lemma_least_closed_step(flow_init(gen_f), flow_edge(nbrs, kill_f), (x.0, x.1, v), (y.0, y.1, v));
        }
    }
    lemma_least_closed_min(flow_init(gen_id), flow_edge(nbrs, kill_id), b);
    assert forall|s: bool, i: int, x: (Seq<char>, usize)| #[trigger] rf.contains((s, i, x)) <==>
        exists|d: usize| d < t.len() && t[d as int] == x && #[trigger] ri.contains((s, i, d)) by {
        if rf.contains((s, i, x)) {
            assert(a.contains((s, i, x)));
        }
        if exists|d: usize| d < t.len() && t[d as int] == x && #[trigger] ri.contains((s, i, d)) {
            let d = choose|d: usize| d < t.len() && t[d as int] == x && #[trigger] ri.contains((s, i, d));
            assert(b.contains((s, i, d)));
        }
    }
}

/// A variable point as a value.
pub type Point = (Seq<char>, usize);

/// Each set of numbers of `s` read as variable points.
pub open spec fn image_sets(t: Seq<Point>, s: Seq<Set<usize>>) -> Seq<Set<Point>> {
    s.map_values(|x: Set<usize>| image(t, x))
}

/// A report of a block read as variable points.
pub open spec fn image_report(t: Seq<Point>, c: Option<(Set<usize>, Set<usize>)>) -> Option<(Set<Point>, Set<Point>)> {
    match c {
        Some(p) => Some((image(t, p.0), image(t, p.1))),
        None => None,
    }
}

/// The reports of a round read as variable points.
pub open spec fn image_round(t: Seq<Point>, r: Seq<Option<(Set<usize>, Set<usize>)>>) -> Seq<Option<(Set<Point>, Set<Point>)>> {
    r.map_values(|c: Option<(Set<usize>, Set<usize>)>| image_report(t, c))
}

/// Numbers below `m` only.
pub open spec fn within(m: nat, s: Set<usize>) -> bool {
    forall|d: usize| #[trigger] s.contains(d) ==> d < m
}

pub open spec fn all_within(m: nat, s: Seq<Set<usize>>) -> bool {
    forall|i: int| 0 <= i < s.len() ==> within(m, #[trigger] s[i])
}

/// The state of the iteration holds numbers below `m` only, a set per block.
pub open spec fn state_ok(m: nat, n: nat, st: FlowSets<usize>) -> bool {
    st.0.len() == n && st.1.len() == n && all_within(m, st.0) && all_within(m, st.1)
}

/// A report as the live-variable sets: IN_L (what the block produces) first, then OUT_L.
pub open spec fn live_report(c: Option<(Set<Point>, Set<Point>)>) -> Option<(Set<Point>, Set<Point>)> {
    match c {
        Some(p) => Some((p.1, p.0)),
        None => None,
    }
}

/// The reports of a round as live-variable sets.
pub open spec fn live_round(r: Seq<Option<(Set<Point>, Set<Point>)>>) -> Seq<Option<(Set<Point>, Set<Point>)>> {
    r.map_values(|c: Option<(Set<Point>, Set<Point>)>| live_report(c))
}

/// The point sets that a recorded round of the live-variable iteration stands for.
pub open spec fn du_round_view(r: Seq<Option<(Vec<VarPoint>, Vec<VarPoint>)>>) -> Seq<Option<(Set<Point>, Set<Point>)>> {
    r.map_values(|c: Option<(Vec<VarPoint>, Vec<VarPoint>)>| match c {
        Some(p) => Some((point_set(p.0@), point_set(p.1@))),
        None => None,
    })
}

proof fn lemma_image_joined(t: Seq<Point>, nl: Seq<Seq<int>>, outs: Seq<Set<usize>>, i: int)
    requires
        0 <= i < nl.len(),
        forall|k: int| 0 <= k < nl[i].len() ==> 0 <= #[trigger] nl[i][k] < outs.len(),
    ensures
        image(t, joined(nl, outs, i)) == joined(nl, image_sets(t, outs), i),
{
    let a = image(t, joined(nl, outs, i));
    let b = joined(nl, image_sets(t, outs), i);
    assert forall|x: Point| a.contains(x) <==> b.contains(x) by {
        if a.contains(x) {
            let d = choose|d: usize| joined(nl, outs, i).contains(d) && d < t.len() && #[trigger] t[d as int] == x;
            let k = choose|k: int| 0 <= k < nl[i].len() && #[trigger] outs[nl[i][k]].contains(d);
            assert(image(t, outs[nl[i][k]]).contains(x));
            assert(image_sets(t, outs)[nl[i][k]].contains(x));
        }
        if b.contains(x) {
            let k = choose|k: int| 0 <= k < nl[i].len() && #[trigger] image_sets(t, outs)[nl[i][k]].contains(x);
            assert(image(t, outs[nl[i][k]]).contains(x));
            let d = choose|d: usize| outs[nl[i][k]].contains(d) && d < t.len() && #[trigger] t[d as int] == x;
            assert(joined(nl, outs, i).contains(d));
        }
    }
    assert(a =~= b);
}

proof fn lemma_image_transfer(t: Seq<Point>, a: Set<usize>, k: Set<usize>, g: Set<usize>)
    requires
        distinct_points(t),
        within(t.len(), a),
        within(t.len(), k),
    ensures
        image(t, a.difference(k).union(g)) == image(t, a).difference(image(t, k)).union(image(t, g)),
{
    let l = image(t, a.difference(k).union(g));
    let r = image(t, a).difference(image(t, k)).union(image(t, g));
    assert forall|x: Point| l.contains(x) <==> r.contains(x) by {
        if l.contains(x) {
            let d = choose|d: usize| a.difference(k).union(g).contains(d) && d < t.len() && #[trigger] t[d as int] == x;
            if g.contains(d) {
                assert(image(t, g).contains(x));
            } else {
                assert(image(t, a).contains(x));
                if image(t, k).contains(x) {
                    let e = choose|e: usize| k.contains(e) && e < t.len() && #[trigger] t[e as int] == x;
                    assert(e == d);
                }
            }
        }
        if r.contains(x) {
            if image(t, g).contains(x) {
                let d = choose|d: usize| g.contains(d) && d < t.len() && #[trigger] t[d as int] == x;
                assert(a.difference(k).union(g).contains(d));
            } else {
                let d = choose|d: usize| a.contains(d) && d < t.len() && #[trigger] t[d as int] == x;
                if k.contains(d) {
                    assert(image(t, k).contains(x));
                }
                assert(a.difference(k).union(g).contains(d));
            }
        }
    }
    assert(l =~= r);
}

proof fn lemma_image_injective(t: Seq<Point>, a: Set<usize>, b: Set<usize>)
    requires
        distinct_points(t),
        within(t.len(), a),
        within(t.len(), b),
    ensures
        (image(t, a) == image(t, b)) == (a == b),
{
    if image(t, a) == image(t, b) {
        assert forall|d: usize| a.contains(d) <==> b.contains(d) by {
            if a.contains(d) {
                assert(image(t, a).contains(t[d as int]));
                let e = choose|e: usize| b.contains(e) && e < t.len() && #[trigger] t[e as int] == t[d as int];
            }
            if b.contains(d) {
                assert(image(t, b).contains(t[d as int]));
                let e = choose|e: usize| a.contains(e) && e < t.len() && #[trigger] t[e as int] == t[d as int];
            }
        }
        assert(a =~= b);
    }
}

/// A round read as variable points reports a change where the round does.
proof fn lemma_some_change_image(t: Seq<Point>, rec: Seq<Option<(Set<usize>, Set<usize>)>>)
    ensures
        some_change(image_round(t, rec)) == some_change(rec),
{
    if some_change(rec) {
        let i = choose|i: int| 0 <= i < rec.len() && #[trigger] rec[i] is Some;
        assert(image_round(t, rec)[i] is Some);
    }
    if some_change(image_round(t, rec)) {
        let i = choose|i: int| 0 <= i < image_round(t, rec).len() && #[trigger] image_round(t, rec)[i] is Some;
        assert(rec[i] is Some);
    }
}

/// Reading the numbers as variable points commutes with a visit.
proof fn lemma_visit_image(nl: Seq<Seq<int>>, t: Seq<Point>, gi: Seq<Set<usize>>, ki: Seq<Set<usize>>, st: FlowSets<usize>, i: int)
    requires
        distinct_points(t),
        gi.len() == nl.len(),
        ki.len() == nl.len(),
        all_within(t.len(), gi),
        all_within(t.len(), ki),
        forall|j: int, k: int| 0 <= j < nl.len() && 0 <= k < nl[j].len() ==> 0 <= #[trigger] nl[j][k] < nl.len(),
        state_ok(t.len(), nl.len(), st),
        0 <= i < nl.len(),
    ensures
        state_ok(t.len(), nl.len(), flow_visit(nl, gi, ki, st, i).0),
        flow_visit(nl, image_sets(t, gi), image_sets(t, ki), (image_sets(t, st.0), image_sets(t, st.1)), i)
            == ((image_sets(t, flow_visit(nl, gi, ki, st, i).0.0), image_sets(t, flow_visit(nl, gi, ki, st, i).0.1)),
                image_report(t, flow_visit(nl, gi, ki, st, i).1)),
        match flow_visit(nl, gi, ki, st, i).1 {
            Some(p) => within(t.len(), p.0) && within(t.len(), p.1),
            None => true,
        },
{
    let j = joined(nl, st.1, i);
    lemma_image_joined(t, nl, st.1, i);
    assert(within(t.len(), st.0[i]));
    assert(within(t.len(), j)) by {
        assert forall|d: usize| #[trigger] j.contains(d) implies d < t.len() by {
            let k = choose|k: int| 0 <= k < nl[i].len() && #[trigger] st.1[nl[i][k]].contains(d);
            assert(within(t.len(), st.1[nl[i][k]]));
        }
    }
    lemma_image_injective(t, j, st.0[i]);
    assert(image_sets(t, st.0)[i] == image(t, st.0[i]));
    assert(within(t.len(), gi[i]));
    assert(within(t.len(), ki[i]));
    if j != st.0[i] {
        let o = j.difference(ki[i]).union(gi[i]);
        lemma_image_transfer(t, j, ki[i], gi[i]);
        assert(within(t.len(), o));
        let v0 = st.0.update(i, j);
        let v1 = st.1.update(i, o);
        assert(image_sets(t, v0) =~= image_sets(t, st.0).update(i, image(t, j)));
        assert(image_sets(t, v1) =~= image_sets(t, st.1).update(i, image(t, o)));
        assert forall|m: int| 0 <= m < v0.len() implies within(t.len(), #[trigger] v0[m]) by {
            if m != i { assert(within(t.len(), st.0[m])); }
        }
        assert forall|m: int| 0 <= m < v1.len() implies within(t.len(), #[trigger] v1[m]) by {
            if m != i { assert(within(t.len(), st.1[m])); }
        }
    }
}

/// Reading the numbers as variable points commutes with the first `k` visits of a round.
proof fn lemma_pass_image(nl: Seq<Seq<int>>, t: Seq<Point>, gi: Seq<Set<usize>>, ki: Seq<Set<usize>>, bw: bool, st: FlowSets<usize>, k: nat)
    requires
        distinct_points(t),
        gi.len() == nl.len(),
        ki.len() == nl.len(),
        all_within(t.len(), gi),
        all_within(t.len(), ki),
        forall|j: int, m: int| 0 <= j < nl.len() && 0 <= m < nl[j].len() ==> 0 <= #[trigger] nl[j][m] < nl.len(),
        state_ok(t.len(), nl.len(), st),
        k <= nl.len(),
    ensures
        state_ok(t.len(), nl.len(), flow_pass(nl, gi, ki, bw, st, k).0),
        flow_pass(nl, gi, ki, bw, st, k).1.len() == nl.len(),
        flow_pass(nl, image_sets(t, gi), image_sets(t, ki), bw, (image_sets(t, st.0), image_sets(t, st.1)), k)
            == ((image_sets(t, flow_pass(nl, gi, ki, bw, st, k).0.0), image_sets(t, flow_pass(nl, gi, ki, bw, st, k).0.1)),
                image_round(t, flow_pass(nl, gi, ki, bw, st, k).1)),
        forall|m: int| 0 <= m < nl.len() ==> match #[trigger] flow_pass(nl, gi, ki, bw, st, k).1[m] {
            Some(p) => within(t.len(), p.0) && within(t.len(), p.1),
            None => true,
        },
    decreases k,
{
    let gf = image_sets(t, gi);
    let kf = image_sets(t, ki);
    let sf = (image_sets(t, st.0), image_sets(t, st.1));
    if k == 0 {
        assert(image_round(t, Seq::new(nl.len(), |m: int| None)) =~= Seq::new(nl.len(), |m: int| None));
    } else {
        lemma_pass_image(nl, t, gi, ki, bw, st, (k - 1) as nat);
        let prev = flow_pass(nl, gi, ki, bw, st, (k - 1) as nat);
        let i = visit_order(nl.len() as int, bw, k as int);
        lemma_visit_image(nl, t, gi, ki, prev.0, i);
        let v = flow_visit(nl, gi, ki, prev.0, i);
        assert(image_round(t, prev.1.update(i, v.1)) =~= image_round(t, prev.1).update(i, image_report(t, v.1)));
        assert forall|m: int| 0 <= m < nl.len() implies match #[trigger] prev.1.update(i, v.1)[m] {
            Some(p) => within(t.len(), p.0) && within(t.len(), p.1),
            None => true,
        } by {
            if m != i {
                assert(prev.1.update(i, v.1)[m] == prev.1[m]);
            }
        }
    }
}

/// Reading the numbers as variable points commutes with the rounds.
proof fn lemma_after_image(nl: Seq<Seq<int>>, t: Seq<Point>, gi: Seq<Set<usize>>, ki: Seq<Set<usize>>, bw: bool, r: nat)
    requires
        distinct_points(t),
        gi.len() == nl.len(),
        ki.len() == nl.len(),
        all_within(t.len(), gi),
        all_within(t.len(), ki),
        forall|j: int, m: int| 0 <= j < nl.len() && 0 <= m < nl[j].len() ==> 0 <= #[trigger] nl[j][m] < nl.len(),
    ensures
        state_ok(t.len(), nl.len(), flow_after(nl, gi, ki, bw, r)),
        flow_after(nl, image_sets(t, gi), image_sets(t, ki), bw, r)
            == (image_sets(t, flow_after(nl, gi, ki, bw, r).0), image_sets(t, flow_after(nl, gi, ki, bw, r).1)),
        flow_round(nl, image_sets(t, gi), image_sets(t, ki), bw, r) == image_round(t, flow_round(nl, gi, ki, bw, r)),
        forall|m: int| 0 <= m < nl.len() ==> match #[trigger] flow_round(nl, gi, ki, bw, r)[m] {
            Some(p) => within(t.len(), p.0) && within(t.len(), p.1),
            None => true,
        },
        flow_round(nl, gi, ki, bw, r).len() == nl.len(),
    decreases r,
{
    let gf = image_sets(t, gi);
    let kf = image_sets(t, ki);
    if r == 0 {
        let s0 = flow_start(gi);
        assert(image_sets(t, s0.0) =~= flow_start(gf).0) by {
            assert forall|m: int| 0 <= m < s0.0.len() implies #[trigger] image_sets(t, s0.0)[m] =~= Set::<Point>::empty() by {}
        }
        assert forall|m: int| 0 <= m < s0.0.len() implies within(t.len(), #[trigger] s0.0[m]) by {}
    } else {
        lemma_after_image(nl, t, gi, ki, bw, (r - 1) as nat);
        lemma_pass_image(nl, t, gi, ki, bw, flow_after(nl, gi, ki, bw, (r - 1) as nat), nl.len());
    }
    let st = flow_after(nl, gi, ki, bw, r);
    lemma_pass_image(nl, t, gi, ki, bw, st, nl.len());
}

/// A copy of a variable point.
fn copy_point(f: &VarPoint) -> (res: VarPoint)
    ensures
        point_view(res) == point_view(*f),
{
    (f.0.clone(), f.1)
}

/// The number of `f` in the table, added at the end if it is not there yet.
fn intern(tab: &mut Vec<VarPoint>, f: &VarPoint) -> (id: usize)
    requires
        distinct_points(table_view(old(tab)@)),
    ensures
        distinct_points(table_view(final(tab)@)),
        table_view(final(tab)@) == table_view(old(tab)@) || table_view(final(tab)@) == table_view(old(tab)@).push(point_view(*f)),
        id < final(tab)@.len(),
        table_view(final(tab)@)[id as int] == point_view(*f),
{
    let ghost t0 = table_view(tab@);
    let mut j: usize = 0;
    while j < tab.len()
        invariant
            t0 == table_view(tab@),
            t0 == table_view(old(tab)@),
            distinct_points(t0),
            j <= tab@.len(),
            forall|k: int| 0 <= k < j ==> t0[k] != point_view(*f),
        decreases tab@.len() - j,
    {
        if tab[j].0.eq(&f.0) && tab[j].1 == f.1 {
            assert(t0[j as int] == point_view(*f));
            return j;
        }
        j = j + 1;
    }
    tab.push(copy_point(f));
    proof {
        assert(table_view(tab@) =~= t0.push(point_view(*f)));
    }
    tab.len() - 1
}

/// The numbers of the variable points of `v`, adding the new ones to the table.
fn intern_all(tab: &mut Vec<VarPoint>, v: &Vec<VarPoint>) -> (ids: Vec<usize>)
    requires
        distinct_points(table_view(old(tab)@)),
    ensures
        distinct_points(table_view(final(tab)@)),
        table_view(old(tab)@).len() <= table_view(final(tab)@).len(),
        table_view(final(tab)@).take(old(tab)@.len() as int) == table_view(old(tab)@),
        forall|k: int| 0 <= k < ids@.len() ==> (#[trigger] ids@[k]) < final(tab)@.len(),
        image(table_view(final(tab)@), ids@.to_set()) == point_set(v@),
{
    let ghost t0 = table_view(tab@);
    let mut ids: Vec<usize> = Vec::new();
    for k in 0..v.len()
        invariant
            distinct_points(table_view(tab@)),
            t0.len() <= table_view(tab@).len(),
            table_view(tab@).take(t0.len() as int) == t0,
            forall|m: int| 0 <= m < ids@.len() ==> (#[trigger] ids@[m]) < tab@.len(),
            image(table_view(tab@), ids@.to_set()) == point_set(v@.take(k as int)),
    {
        let ghost t1 = table_view(tab@);
        let ghost i1 = ids@;
        let id = intern(tab, &v[k]);
        ids.push(id);
        proof {
            let t2 = table_view(tab@);
            assert(t2.take(t0.len() as int) =~= t0) by {
                assert forall|m: int| 0 <= m < t0.len() implies t2[m] == t0[m] by {
                    assert(t1[m] == t0[m]);
                    if t2 != t1 {
                        assert(t2[m] == t1.push(point_view(v@[k as int]))[m]);
                    }
                }
            }
            assert(v@.take(k + 1) =~= v@.take(k as int).push(v@[k as int]));
            assert(v@.take(k + 1).map_values(|f: VarPoint| point_view(f)) =~= v@.take(k as int).map_values(|f: VarPoint| point_view(f)).push(point_view(v@[k as int])));
            v@.take(k as int).map_values(|f: VarPoint| point_view(f)).lemma_push_to_set_commute(point_view(v@[k as int]));
            i1.lemma_push_to_set_commute(id);
            assert(image(t2, ids@.to_set()) =~= point_set(v@.take(k + 1))) by {
                assert forall|x: (Seq<char>, usize)| image(t2, ids@.to_set()).contains(x) <==> point_set(v@.take(k + 1)).contains(x) by {
                    if image(t2, ids@.to_set()).contains(x) {
                        let d = choose|d: usize| ids@.to_set().contains(d) && d < t2.len() && #[trigger] t2[d as int] == x;
                        if d != id {
                            assert(i1.to_set().contains(d));
                            assert(t2[d as int] == t1[d as int]) by {
                                let m = choose|m: int| 0 <= m < i1.len() && i1[m] == d;
                            }
                            assert(image(t1, i1.to_set()).contains(x));
                        }
                    }
                    if point_set(v@.take(k + 1)).contains(x) {
                        if x == point_view(v@[k as int]) {
                            assert(ids@.to_set().contains(id));
                            assert(image(t2, ids@.to_set()).contains(x));
                        } else {
                            assert(point_set(v@.take(k as int)).contains(x));
                            assert(image(t1, i1.to_set()).contains(x));
                            let d = choose|d: usize| i1.to_set().contains(d) && d < t1.len() && #[trigger] t1[d as int] == x;
                            assert(t2[d as int] == t1[d as int]) by {
                                if t2 != t1 {
                                    assert(t2[d as int] == t1.push(point_view(v@[k as int]))[d as int]);
                                }
                            }
                            assert(ids@.to_set().contains(d));
                        }
                    }
                }
            }
            assert forall|m: int| 0 <= m < ids@.len() implies (#[trigger] ids@[m]) < tab@.len() by {
                if m < i1.len() {
                    assert(ids@[m] == i1[m]);
                }
            }
        }
    }
    assert(v@.take(v@.len() as int) =~= v@);
    ids
}


/// Numbers that lie in a table keep their points when the table grows at the end.
proof fn lemma_image_extend(t: Seq<(Seq<char>, usize)>, t2: Seq<(Seq<char>, usize)>, s: Set<usize>)
    requires
        t.len() <= t2.len(),
        t2.take(t.len() as int) == t,
        forall|d: usize| #[trigger] s.contains(d) ==> d < t.len(),
    ensures
        image(t2, s) == image(t, s),
{
    assert forall|x: (Seq<char>, usize)| image(t2, s).contains(x) <==> image(t, s).contains(x) by {
        if image(t2, s).contains(x) {
            let d = choose|d: usize| s.contains(d) && d < t2.len() && #[trigger] t2[d as int] == x;
            assert(t2.take(t.len() as int)[d as int] == t2[d as int]);
        }
        if image(t, s).contains(x) {
            let d = choose|d: usize| s.contains(d) && d < t.len() && #[trigger] t[d as int] == x;
            assert(t2.take(t.len() as int)[d as int] == t2[d as int]);
        }
    }
    assert(image(t2, s) =~= image(t, s));
}

/// The variable points numbered in `ids` (numbers outside the table are left out).
fn points_of(tab: &Vec<VarPoint>, ids: &Vec<usize>) -> (res: Vec<VarPoint>)
    ensures
        (forall|k: int| 0 <= k < ids@.len() ==> (#[trigger] ids@[k]) < tab@.len()) ==>
            point_set(res@) == image(table_view(tab@), ids@.to_set()),
{
    let ghost t = table_view(tab@);
    let mut res: Vec<VarPoint> = Vec::new();
    for k in 0..ids.len()
        invariant
            t == table_view(tab@),
            (forall|m: int| 0 <= m < ids@.len() ==> (#[trigger] ids@[m]) < tab@.len()) ==>
                point_set(res@) == image(t, ids@.take(k as int).to_set()),
    {
        let d = ids[k];
        let ghost r0 = res@;
        if d < tab.len() {
            res.push(copy_point(&tab[d]));
        }
        proof {
            if forall|m: int| 0 <= m < ids@.len() ==> (#[trigger] ids@[m]) < tab@.len() {
                assert(ids@[k as int] < tab@.len());
                assert(ids@.take(k + 1) =~= ids@.take(k as int).push(d));
                ids@.take(k as int).lemma_push_to_set_commute(d);
                assert(res@.map_values(|f: VarPoint| point_view(f)) =~= r0.map_values(|f: VarPoint| point_view(f)).push(t[d as int]));
                r0.map_values(|f: VarPoint| point_view(f)).lemma_push_to_set_commute(t[d as int]);
                assert(point_set(res@) =~= image(t, ids@.take(k + 1).to_set())) by {
                    assert forall|x: (Seq<char>, usize)| point_set(res@).contains(x) <==> image(t, ids@.take(k + 1).to_set()).contains(x) by {
                        if image(t, ids@.take(k + 1).to_set()).contains(x) {
                            let e = choose|e: usize| ids@.take(k + 1).to_set().contains(e) && e < t.len() && #[trigger] t[e as int] == x;
                            if e != d {
                                assert(image(t, ids@.take(k as int).to_set()).contains(x));
                            }
                        }
                        if point_set(res@).contains(x) && x != t[d as int] {
                            assert(point_set(r0).contains(x));
                            let e = choose|e: usize| ids@.take(k as int).to_set().contains(e) && e < t.len() && #[trigger] t[e as int] == x;
                            assert(ids@.take(k + 1).to_set().contains(e));
                        }
                    }
                }
            }
        }
    }
    proof {
        assert(ids@.take(ids@.len() as int) =~= ids@);
    }
    res
}

/// The lists of successors of the first `n` nodes.
fn succ_lists(g: &Graph<(), ()>, n: usize) -> (res: Vec<Vec<usize>>)
    requires
        g.wf(),
        n <= g.value@.len(),
        forall|i: int, k: int| 0 <= i < n && 0 <= k < g.succs()[i].len() ==> 0 <= #[trigger] g.succs()[i][k] < n,
    ensures
        res@.len() == n,
        ilists(res@) == g.succs().take(n as int),
        forall|i: int, k: int| 0 <= i < res@.len() && 0 <= k < res@[i]@.len() ==> (#[trigger] res@[i]@[k]) < res@.len(),
{
    let mut res: Vec<Vec<usize>> = Vec::new();
    for i in 0..n
        invariant
            g.wf(),
            n <= g.value@.len(),
            res@.len() == i,
            forall|j: int| 0 <= j < i ==> (#[trigger] res@[j])@.map_values(|y: usize| y as int) == g.succs()[j],
    {
        let p = g.successors(i);
        let ghost r0 = res@;
        res.push(p);
        proof {
            assert forall|j: int| 0 <= j < i + 1 implies (#[trigger] res@[j])@.map_values(|y: usize| y as int) == g.succs()[j] by {
                if j < i {
                    assert(res@[j] == r0[j]);
                }
            }
        }
    }
    proof {
        assert(ilists(res@) =~= g.succs().take(n as int));
        assert forall|i: int, k: int| 0 <= i < res@.len() && 0 <= k < res@[i]@.len() implies (#[trigger] res@[i]@[k]) < res@.len() by {
            assert(res@[i]@.map_values(|y: usize| y as int)[k] == g.succs()[i][k]);
        }
    }
    res
}

/// The new sets of each block in one round, where they changed: IN_L and OUT_L.
pub type DuRound = Vec<Option<(Vec<VarPoint>, Vec<VarPoint>)>>;

/// Live variables: the IN_L and OUT_L sets of each block of the flow graph `g` from the
/// USE and DEF sets in `use_def` (the least solution of OUT_L = ∪ IN_L of the successors
/// and IN_L = (OUT_L - DEF) ∪ USE, blocks visited from the last), with the changes of
/// each round of the iteration.
pub fn calc_with_process(g: &Graph<(), ()>, use_def: &List) -> (res: (List, Vec<DuRound>))
    requires
        g.wf(),
        use_def@.len() <= g.value@.len(),
        forall|i: int, k: int| 0 <= i < use_def@.len() && 0 <= k < g.succs()[i].len() ==> 0 <= #[trigger] g.succs()[i][k] < use_def@.len(),
    ensures
        res.0@.len() == use_def@.len(),
        forall|i: int| 0 <= i < use_def@.len() ==>
            point_set((#[trigger] res.0@[i]).0@) == flow_out(g.succs().take(use_def@.len() as int), first_points(use_def@), second_points(use_def@), i)
            && point_set(res.0@[i].1@) == flow_in(g.succs().take(use_def@.len() as int), first_points(use_def@), second_points(use_def@), i),
        res.1@.len() >= 1,
        forall|q: int| 0 <= q < res.1@.len() ==> du_round_view((#[trigger] res.1@[q])@)
            == live_round(flow_round(g.succs().take(use_def@.len() as int), first_points(use_def@), second_points(use_def@), true, q as nat)),
        forall|q: int| 0 <= q < res.1@.len() - 1 ==>
            some_change(#[trigger] flow_round(g.succs().take(use_def@.len() as int), first_points(use_def@), second_points(use_def@), true, q as nat)),
        !some_change(flow_round(g.succs().take(use_def@.len() as int), first_points(use_def@), second_points(use_def@), true, (res.1@.len() - 1) as nat)),
{
    let n = use_def.len();
    let nbrs = succ_lists(g, n);
    let mut tab: Vec<VarPoint> = Vec::new();
    let mut uses: Vec<Vec<usize>> = Vec::new();
    let mut defs: Vec<Vec<usize>> = Vec::new();
    assert(distinct_points(table_view(tab@)));
    for i in 0..n
        invariant
            n == use_def@.len(),
            distinct_points(table_view(tab@)),
            uses@.len() == i,
            defs@.len() == i,
            forall|j: int, k: int| 0 <= j < i && 0 <= k < uses@[j]@.len() ==> (#[trigger] uses@[j]@[k]) < tab@.len(),
            forall|j: int, k: int| 0 <= j < i && 0 <= k < defs@[j]@.len() ==> (#[trigger] defs@[j]@[k]) < tab@.len(),
            forall|j: int| 0 <= j < i ==> #[trigger] image(table_view(tab@), uses@[j]@.to_set()) == first_points(use_def@)[j],
            forall|j: int| 0 <= j < i ==> #[trigger] image(table_view(tab@), defs@[j]@.to_set()) == second_points(use_def@)[j],
    {
        let ghost t0 = table_view(tab@);
        let ghost u0 = uses@;
        let ghost d0 = defs@;
        let a = intern_all(&mut tab, &use_def[i].0);
        let ghost t1 = table_view(tab@);
        let b = intern_all(&mut tab, &use_def[i].1);
        let ghost t2 = table_view(tab@);
        uses.push(a);
        defs.push(b);
        proof {
            assert(t2.take(t0.len() as int) =~= t0) by {
                assert forall|m: int| 0 <= m < t0.len() implies t2[m] == t0[m] by {
                    assert(t2.take(t1.len() as int)[m] == t1[m]);
                    assert(t1.take(t0.len() as int)[m] == t0[m]);
                }
            }
            assert forall|j: int, k: int| 0 <= j < i + 1 && 0 <= k < uses@[j]@.len() implies (#[trigger] uses@[j]@[k]) < tab@.len() by {
                if j < i { assert(uses@[j] == u0[j]); }
            }
            assert forall|j: int, k: int| 0 <= j < i + 1 && 0 <= k < defs@[j]@.len() implies (#[trigger] defs@[j]@[k]) < tab@.len() by {
                if j < i { assert(defs@[j] == d0[j]); }
            }
            assert forall|j: int| 0 <= j < i + 1 implies #[trigger] image(table_view(tab@), uses@[j]@.to_set()) == first_points(use_def@)[j] by {
                if j < i {
                    assert(uses@[j] == u0[j]);
                    assert forall|d: usize| #[trigger] u0[j]@.to_set().contains(d) implies d < t0.len() by {
                        let k = choose|k: int| 0 <= k < u0[j]@.len() && u0[j]@[k] == d;
                    }
                    lemma_image_extend(t0, t2, u0[j]@.to_set());
                } else {
                    assert forall|d: usize| #[trigger] a@.to_set().contains(d) implies d < t1.len() by {
                        let k = choose|k: int| 0 <= k < a@.len() && a@[k] == d;
                    }
                    assert(t2.take(t1.len() as int) == t1);
                    lemma_image_extend(t1, t2, a@.to_set());
                    assert(uses@[j]@ == a@);
                }
            }
            assert forall|j: int| 0 <= j < i + 1 implies #[trigger] image(table_view(tab@), defs@[j]@.to_set()) == second_points(use_def@)[j] by {
                if j < i {
                    assert(defs@[j] == d0[j]);
                    assert forall|d: usize| #[trigger] d0[j]@.to_set().contains(d) implies d < t0.len() by {
                        let k = choose|k: int| 0 <= k < d0[j]@.len() && d0[j]@[k] == d;
                    }
                    lemma_image_extend(t0, t2, d0[j]@.to_set());
                } else {
                    assert(defs@[j]@ == b@);
                }
            }
        }
    }
    let (ins, outs, rounds) = solve_flow(&nbrs, &uses, &defs, true);
    let ghost t = table_view(tab@);
    let ghost nl = ilists(nbrs@);
    let ghost gi = vsets(uses@);
    let ghost ki = vsets(defs@);
    proof {
        assert forall|i: int, d: usize| 0 <= i < gi.len() && #[trigger] gi[i].contains(d) implies d < t.len() by {
            let k = choose|k: int| 0 <= k < uses@[i]@.len() && uses@[i]@[k] == d;
        }
        assert forall|i: int, d: usize| 0 <= i < ki.len() && #[trigger] ki[i].contains(d) implies d < t.len() by {
            let k = choose|k: int| 0 <= k < defs@[i]@.len() && defs@[i]@[k] == d;
        }
        assert forall|i: int| 0 <= i < gi.len() implies #[trigger] first_points(use_def@)[i] == image(t, gi[i]) by {}
        assert forall|i: int| 0 <= i < ki.len() implies #[trigger] second_points(use_def@)[i] == image(t, ki[i]) by {}
        lemma_flow_image(nl, t, gi, ki, first_points(use_def@), second_points(use_def@));
        assert(first_points(use_def@) =~= image_sets(t, gi));
        assert(second_points(use_def@) =~= image_sets(t, ki));
        assert forall|j: int, m: int| 0 <= j < nl.len() && 0 <= m < nl[j].len() implies 0 <= #[trigger] nl[j][m] < nl.len() by {
            assert(nl[j][m] == nbrs@[j]@[m] as int);
        }
    }
    let mut res: List = Vec::new();
    for i in 0..n
        invariant
            n == use_def@.len(),
            t == table_view(tab@),
            nl == ilists(nbrs@),
            nl == g.succs().take(n as int),
            forall|j: int, e: usize| 0 <= j < vsets(uses@).len() && #[trigger] vsets(uses@)[j].contains(e) ==> e < t.len(),
            ins@.len() == n,
            outs@.len() == n,
            forall|j: int| 0 <= j < n ==> (#[trigger] ins@[j])@.to_set() == flow_in(nl, vsets(uses@), vsets(defs@), j),
            forall|j: int| 0 <= j < n ==> (#[trigger] outs@[j])@.to_set() == flow_out(nl, vsets(uses@), vsets(defs@), j),
            forall|s: bool, j: int, x: (Seq<char>, usize)| #[trigger] flow_reach(nl, first_points(use_def@), second_points(use_def@)).contains((s, j, x)) <==>
                exists|d: usize| d < t.len() && t[d as int] == x && #[trigger] flow_reach(nl, vsets(uses@), vsets(defs@)).contains((s, j, d)),
            res@.len() == i,
            forall|j: int| 0 <= j < i ==>
                point_set((#[trigger] res@[j]).0@) == flow_out(nl, first_points(use_def@), second_points(use_def@), j)
                && point_set(res@[j].1@) == flow_in(nl, first_points(use_def@), second_points(use_def@), j),
    {
        let ghost ri = flow_reach(nl, vsets(uses@), vsets(defs@));
        let ghost rf = flow_reach(nl, first_points(use_def@), second_points(use_def@));
        proof {
            assert forall|k: int| 0 <= k < outs@[i as int]@.len() implies (#[trigger] outs@[i as int]@[k]) < tab@.len() by {
                let d = outs@[i as int]@[k];
                assert(outs@[i as int]@.to_set().contains(d));
                assert(ri.contains((true, i as int, d)));
                assert(rf.contains((true, i as int, t[d as int])) || true);
                lemma_reach_in_table(nl, vsets(uses@), vsets(defs@), t.len(), true, i as int, d);
            }
            assert forall|k: int| 0 <= k < ins@[i as int]@.len() implies (#[trigger] ins@[i as int]@[k]) < tab@.len() by {
                let d = ins@[i as int]@[k];
                assert(ins@[i as int]@.to_set().contains(d));
                lemma_reach_in_table(nl, vsets(uses@), vsets(defs@), t.len(), false, i as int, d);
            }
        }
        let live_in = points_of(&tab, &outs[i]);
        let live_out = points_of(&tab, &ins[i]);
        proof {
            assert(point_set(live_in@) =~= flow_out(nl, first_points(use_def@), second_points(use_def@), i as int)) by {
                assert forall|x: (Seq<char>, usize)| point_set(live_in@).contains(x) <==> rf.contains((true, i as int, x)) by {
                    if rf.contains((true, i as int, x)) {
                        let d = choose|d: usize| d < t.len() && t[d as int] == x && #[trigger] ri.contains((true, i as int, d));
                        assert(outs@[i as int]@.to_set().contains(d));
                    }
                }
            }
            assert(point_set(live_out@) =~= flow_in(nl, first_points(use_def@), second_points(use_def@), i as int)) by {
                assert forall|x: (Seq<char>, usize)| point_set(live_out@).contains(x) <==> rf.contains((false, i as int, x)) by {
                    if rf.contains((false, i as int, x)) {
                        let d = choose|d: usize| d < t.len() && t[d as int] == x && #[trigger] ri.contains((false, i as int, d));
                        assert(ins@[i as int]@.to_set().contains(d));
                    }
                }
            }
        }
        let ghost r0 = res@;
        res.push((live_in, live_out));
        proof {
            assert forall|j: int| 0 <= j < i + 1 implies
                point_set((#[trigger] res@[j]).0@) == flow_out(nl, first_points(use_def@), second_points(use_def@), j)
                && point_set(res@[j].1@) == flow_in(nl, first_points(use_def@), second_points(use_def@), j) by {
                if j < i { assert(res@[j] == r0[j]); }
            }
        }
    }
    let mut trace: Vec<DuRound> = Vec::new();
    for r in 0..rounds.len()
        invariant
            t == table_view(tab@),
            distinct_points(t),
            nl == ilists(nbrs@),
            gi == vsets(uses@),
            ki == vsets(defs@),
            gi.len() == nl.len(),
            ki.len() == nl.len(),
            all_within(t.len(), gi),
            all_within(t.len(), ki),
            forall|j: int, m: int| 0 <= j < nl.len() && 0 <= m < nl[j].len() ==> 0 <= #[trigger] nl[j][m] < nl.len(),
            forall|q: int| 0 <= q < rounds@.len() ==> round_view((#[trigger] rounds@[q])@) == flow_round(nl, gi, ki, true, q as nat),
            trace@.len() == r,
            forall|q: int| 0 <= q < r ==> du_round_view((#[trigger] trace@[q])@)
                == live_round(image_round(t, flow_round(nl, gi, ki, true, q as nat))),
    {
        let mut row: DuRound = Vec::new();
        let cur = &rounds[r];
        let ghost fr = flow_round(nl, gi, ki, true, r as nat);
        proof {
            lemma_after_image(nl, t, gi, ki, true, r as nat);
            assert(round_view(cur@) == fr);
        }
        for j in 0..cur.len()
            invariant
                t == table_view(tab@),
                round_view(cur@) == fr,
                fr.len() == nl.len(),
                forall|m: int| 0 <= m < nl.len() ==> match #[trigger] fr[m] {
                    Some(p) => within(t.len(), p.0) && within(t.len(), p.1),
                    None => true,
                },
                row@.len() == j,
                forall|m: int| 0 <= m < j ==> #[trigger] du_round_view(row@)[m] == live_report(image_report(t, fr[m])),
        {
            let ghost r0 = row@;
            assert(round_view(cur@)[j as int] == fr[j as int]);
            match &cur[j] {
                Some((a, b)) => {
                    proof {
                        assert(fr[j as int] == Some((a@.to_set(), b@.to_set())));
                        assert forall|k: int| 0 <= k < a@.len() implies (#[trigger] a@[k]) < tab@.len() by {
                            assert(a@.to_set().contains(a@[k]));
                        }
                        assert forall|k: int| 0 <= k < b@.len() implies (#[trigger] b@[k]) < tab@.len() by {
                            assert(b@.to_set().contains(b@[k]));
                        }
                    }
                    row.push(Some((points_of(&tab, b), points_of(&tab, a))));
                },
                None => row.push(None),
            }
            proof {
                assert forall|m: int| 0 <= m < j + 1 implies #[trigger] du_round_view(row@)[m] == live_report(image_report(t, fr[m])) by {
                    if m < j {
                        assert(row@[m] == r0[m]);
                        assert(du_round_view(r0)[m] == live_report(image_report(t, fr[m])));
                    }
                }
            }
        }
        proof {
            assert(du_round_view(row@) =~= live_round(image_round(t, fr)));
        }
        let ghost tr0 = trace@;
        trace.push(row);
        proof {
            assert forall|q: int| 0 <= q < r + 1 implies du_round_view((#[trigger] trace@[q])@)
                == live_round(image_round(t, flow_round(nl, gi, ki, true, q as nat))) by {
                if q < r {
                    assert(trace@[q] == tr0[q]);
                }
            }
        }
    }
    proof {
        assert forall|q: int| 0 <= q < trace@.len() implies du_round_view((#[trigger] trace@[q])@)
            == live_round(flow_round(nl, first_points(use_def@), second_points(use_def@), true, q as nat)) by {
            lemma_after_image(nl, t, gi, ki, true, q as nat);
        }
        assert forall|q: int| 0 <= q < trace@.len() - 1 implies
            some_change(#[trigger] flow_round(nl, first_points(use_def@), second_points(use_def@), true, q as nat)) by {
            lemma_after_image(nl, t, gi, ki, true, q as nat);
            lemma_some_change_image(t, flow_round(nl, gi, ki, true, q as nat));
        }
        let last = (trace@.len() - 1) as nat;
        lemma_after_image(nl, t, gi, ki, true, last);
        lemma_some_change_image(t, flow_round(nl, gi, ki, true, last));
    }
    (res, trace)
}

/// Every value of the data-flow solution comes from a GEN set.
proof fn lemma_reach_in_table(nbrs: Seq<Seq<int>>, gen: Seq<Set<usize>>, kill: Seq<Set<usize>>, m: nat, s: bool, i: int, d: usize)
    requires
        forall|j: int, e: usize| 0 <= j < gen.len() && #[trigger] gen[j].contains(e) ==> e < m,
        flow_reach(nbrs, gen, kill).contains((s, i, d)),
    ensures
        d < m,
{
    let c = Set::new(|f: Fact<usize>| f.2 < m);
    assert(flow_init(gen).subset_of(c));
    assert(closed_under(flow_edge(nbrs, kill), c)) by {
        assert forall|a: Fact<usize>, b: Fact<usize>| c.contains(a) && #[trigger] (flow_edge(nbrs, kill))(a, b) implies c.contains(b) by {}
    }
    lemma_least_closed_min(flow_init(gen), flow_edge(nbrs, kill), c);
}

/// Variable points ordered as the derived `Ord` of `(String, usize)`: by name, then by point.
pub open spec fn point_lt(a: (Seq<char>, usize), b: (Seq<char>, usize)) -> bool {
    name_lt(a.0, b.0) || (a.0 == b.0 && a.1 < b.1)
}

/// `point_lt` as a function value.
pub open spec fn point_order() -> spec_fn((Seq<char>, usize), (Seq<char>, usize)) -> bool {
    |a: (Seq<char>, usize), b: (Seq<char>, usize)| point_lt(a, b)
}

proof fn lemma_point_strict_total()
    ensures
        strict_total(point_order()),
{
    lemma_char_strict_total();
    lemma_lex_strict_total(char_lt());
    let n = |a: Seq<char>, b: Seq<char>| lex_lt(a, b, char_lt());
    assert(strict_total(n));
    let o = point_order();
    assert forall|a: (Seq<char>, usize)| !(#[trigger] o(a, a)) by {
        assert(!n(a.0, a.0));
    }
    assert forall|a: (Seq<char>, usize), b: (Seq<char>, usize), c: (Seq<char>, usize)| #[trigger] o(a, b) && #[trigger] o(b, c) implies o(a, c) by {
        if n(a.0, b.0) && n(b.0, c.0) {
            assert(n(a.0, c.0));
        }
        if a.0 == c.0 && n(a.0, b.0) && n(b.0, c.0) {
            assert(n(a.0, a.0));
        }
    }
    assert forall|a: (Seq<char>, usize), b: (Seq<char>, usize)| a != b implies #[trigger] o(a, b) || #[trigger] o(b, a) by {
        if a.0 != b.0 {
            assert(n(a.0, b.0) || n(b.0, a.0));
        }
    }
}

/// The abstract values of a list of variable points.
pub open spec fn points_view(v: Seq<VarPoint>) -> Seq<(Seq<char>, usize)> {
    v.map_values(|f: VarPoint| point_view(f))
}

/// Points printed as name and point run together, with `,` between them.
pub open spec fn points_text(s: Seq<(Seq<char>, usize)>) -> Seq<char>
    decreases s.len(),
{
    if s.len() == 0 {
        seq![]
    } else if s.len() == 1 {
        s[0].0 + decimal(s[0].1 as nat)
    } else {
        points_text(s.drop_last()) + seq![','] + s.last().0 + decimal(s.last().1 as nat)
    }
}

fn compare_points(a: &VarPoint, b: &VarPoint) -> (res: i8)
    ensures
        (res < 0) == point_lt(point_view(*a), point_view(*b)),
        (res == 0) == (point_view(*a) == point_view(*b)),
        (res > 0) == point_lt(point_view(*b), point_view(*a)),
{
    let r = compare_names(a.0.as_str(), b.0.as_str());
    if r != 0 {
        return r;
    }
    if a.1 < b.1 {
        -1
    } else if b.1 < a.1 {
        1
    } else {
        0
    }
}

/// Sorts variable points by `point_lt`, keeping each as often as it occurs.
pub fn sort_points(v: &Vec<VarPoint>) -> (res: Vec<VarPoint>)
    ensures
        points_view(res@).to_multiset() == points_view(v@).to_multiset(),
        sorted_by(points_view(res@), point_order()),
{
    proof {
        lemma_point_strict_total();
    }
    let ghost o = point_order();
    let mut out: Vec<VarPoint> = Vec::new();
    assert(points_view(v@.take(0)) =~= points_view(out@));
    for i in 0..v.len()
        invariant
            o == point_order(),
            strict_total(o),
            points_view(out@).to_multiset() == points_view(v@.take(i as int)).to_multiset(),
            sorted_by(points_view(out@), o),
    {
        let x: VarPoint = (v[i].0.clone(), v[i].1);
        assert(point_view(x) == point_view(v@[i as int]));
        let mut pos: usize = 0;
        loop
            invariant
                o == point_order(),
                strict_total(o),
                pos <= out@.len(),
                forall|k: int| 0 <= k < pos ==> !o(point_view(x), #[trigger] points_view(out@)[k]),
            ensures
                pos <= out@.len(),
                forall|k: int| 0 <= k < pos ==> !o(point_view(x), #[trigger] points_view(out@)[k]),
                pos < out@.len() ==> o(point_view(x), points_view(out@)[pos as int]),
            decreases out@.len() - pos,
        {
            if pos == out.len() {
                break;
            }
            let r = compare_points(&x, &out[pos]);
            assert(points_view(out@)[pos as int] == point_view(out@[pos as int]));
            if r < 0 {
                break;
            }
            proof {
                if r == 0 {
                    assert(!o(point_view(x), point_view(x)));
                } else {
                    assert(o(point_view(out@[pos as int]), point_view(x)));
                    if o(point_view(x), point_view(out@[pos as int])) {
                        assert(o(point_view(x), point_view(x)));
                    }
                }
            }
            pos = pos + 1;
        }
        let ghost before = points_view(out@);
        proof {
            lemma_insert_sorted(before, pos as int, point_view(x), o);
            broadcast use vstd::seq_lib::group_to_multiset_ensures;
            assert(points_view(v@.take(i + 1)) =~= points_view(v@.take(i as int)).push(point_view(v@[i as int])));
        }
        out.insert(pos, x);
        assert(points_view(out@) =~= before.insert(pos as int, point_view(x)));
    }
    assert(v@.take(v@.len() as int) =~= v@);
    out
}

/// The points in order, as `{x1,y3}` (`{}` for none).
pub fn format_helper(v: &Vec<VarPoint>) -> (res: String)
    ensures
        exists|s: Seq<(Seq<char>, usize)>|
            s.to_multiset() == points_view(v@).to_multiset() && sorted_by(s, point_order()) && res@ == seq!['{'] + points_text(s)
                + seq!['}'],
{
    let sorted = sort_points(v);
    let ghost s = points_view(sorted@);
    proof {
        reveal_strlit("{");
        reveal_strlit(",");
    }
    let mut out = String::from_str("{");
    for i in 0..sorted.len()
        invariant
            s == points_view(sorted@),
            out@ == seq!['{'] + points_text(s.take(i as int)),
    {
        let ghost before = out@;
        if i > 0 {
            out.append(",");
        }
        out.append(sorted[i].0.as_str());
        let d = sorted[i].1.shown();
        out.append(d.as_str());
        proof {
            reveal_strlit(",");
            assert(s.take(i + 1).drop_last() =~= s.take(i as int));
            assert(s.take(i + 1).last() == point_view(sorted@[i as int]));
            if i == 0 {
                assert(s.take(1)[0] == point_view(sorted@[0]));
                assert(out@ =~= seq!['{'] + points_text(s.take(i + 1)));
            } else {
                assert(out@ =~= seq!['{'] + points_text(s.take(i + 1)));
            }
        }
    }
    proof {
        reveal_strlit("}");
    }
    out.append("}");
    assert(s.take(s.len() as int) =~= s);
    out
}

} // verus!

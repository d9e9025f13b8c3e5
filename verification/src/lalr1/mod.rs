use vstd::prelude::*;
use crate::grammar::letter::{Letter, SpecLetter, seq_view};
use crate::grammar::rule::letters_eq;
use crate::grammar::{Grammar, SpecGrammar};
use crate::first_follow_set::{FirstFollowSet, node_count, edge_budget};
use crate::lr0::lr0_item::{SpecItem0, item_rule};
use crate::lr0::lr0_item_set_family::signs_of;
use crate::lr0::action_keys;
use crate::lr1::lr1_item::{LR1Item, SpecItem1, spec_shift1};
use crate::lr1::lr1_item_set::{LR1ItemSet, items1_view, contains_item1, lemma_items1_push};
use crate::lr1::lr1_item_set_family::{LR1ItemSetFamily, GoFunctionItem, Ctx1, go1, go_get1, go_row_map1, go_entry_ok1, lemma_go_row_has1};
use crate::lr1::universe::{good1, lemma_good_symbol, lemma_go1_nonempty};
use crate::lr1::{shifts1, reduces1, reducer1, lr1_family_ok, lr1_set_ok};
use crate::lr1::laws::law_lr1_class_unique;
use crate::lr_table::{LALRTable, GotoTableItem, ActionTableItem, SpecAction, goto_map, action_map, goto_put, action_put, action_get, goto_get};
use crate::utils::lemma_push_no_dup;

verus! {

/// The LR(0) core of an LR(1) item.
pub open spec fn core1(it: SpecItem1) -> SpecItem0 {
    SpecItem0 { left: it.left, x: it.x, y: it.y }
}

/// The LR(0) cores of a set of LR(1) items.
pub open spec fn core_set(s: Set<SpecItem1>) -> Set<SpecItem0> {
    s.map(|it: SpecItem1| core1(it))
}

/// No item ready to reduce expects a terminal that another item shifts.
pub open spec fn sr_free(s: Set<SpecItem1>) -> bool {
    forall|a: SpecItem1, b: SpecItem1|
        s.contains(a) && s.contains(b) && a.y.len() == 0 && b.y.len() > 0 && b.y[0] is Terminal ==> b.y[0] != a.expected
}

/// No two items ready to reduce expect the same symbol.
pub open spec fn rr_free(s: Set<SpecItem1>) -> bool {
    forall|a: SpecItem1, b: SpecItem1| s.contains(a) && s.contains(b) && a != b && a.y.len() == 0 && b.y.len() == 0 ==> a.expected != b.expected
}

/// No LR(1) item set of any family of `g` has a shift-reduce conflict.
pub open spec fn lr1_sr_free(g: SpecGrammar) -> bool {
    forall|f: LR1ItemSetFamily, ff: FirstFollowSet, s: int|
        #![trigger f.of_grammar(g, ff.first_set@), sr_free(f.sets()[s])]
        ff.of_grammar(g) && f.of_grammar(g, ff.first_set@) && 0 <= s < f.sets().len() ==> sr_free(f.sets()[s])
}

/// The grouping of the states by their cores: `group_of[s]` is the group of state `s`,
/// `state_map[k]` the states of group `k` in increasing order, the groups numbered by
/// their first state.
pub open spec fn grouping_ok(sets: Seq<Set<SpecItem1>>, group_of: Seq<usize>, state_map: Seq<Seq<usize>>) -> bool {
    &&& group_of.len() == sets.len()
    &&& forall|s: int| 0 <= s < sets.len() ==> (#[trigger] group_of[s]) < state_map.len()
    &&& forall|s: int, t: int|
        0 <= s < sets.len() && 0 <= t < sets.len() ==> (group_of[s] == group_of[t] <==> core_set(#[trigger] sets[s]) == core_set(#[trigger] sets[t]))
    &&& forall|k: int| 0 <= k < state_map.len() ==> (#[trigger] state_map[k]).len() > 0
    &&& forall|k: int, i: int|
        0 <= k < state_map.len() && 0 <= i < state_map[k].len() ==> (#[trigger] state_map[k][i]) < sets.len() && group_of[state_map[k][i] as int] == k
    &&& forall|k: int, i: int, j: int| 0 <= k < state_map.len() && 0 <= i < j < state_map[k].len() ==> #[trigger] state_map[k][i] < #[trigger] state_map[k][j]
    &&& forall|s: int| 0 <= s < sets.len() ==> #[trigger] state_map[group_of[s] as int].contains(s as usize)
    &&& forall|k: int, l: int| 0 <= k < l < state_map.len() ==> #[trigger] state_map[k][0] < #[trigger] state_map[l][0]
}

/// The items of the states `members`.
pub open spec fn merged_of(sets: Seq<Set<SpecItem1>>, members: Seq<usize>) -> Set<SpecItem1> {
    Set::new(|it: SpecItem1| exists|i: int| 0 <= i < members.len() && #[trigger] sets[members[i] as int].contains(it))
}

/// The items of the states of group `k`.
pub open spec fn merged(sets: Seq<Set<SpecItem1>>, state_map: Seq<Seq<usize>>, k: int) -> Set<SpecItem1> {
    merged_of(sets, state_map[k])
}

/// Every merged state is free of reduce-reduce conflicts.
pub open spec fn lalr_ok(sets: Seq<Set<SpecItem1>>, state_map: Seq<Seq<usize>>) -> bool {
    forall|k: int| 0 <= k < state_map.len() ==> #[trigger] rr_free(merged(sets, state_map, k))
}

/// Whether two items have the same core.
fn same_core_item(a: &LR1Item, b: &LR1Item) -> (res: bool)
    ensures
        res == (core1(a@) == core1(b@)),
{
    a.left == b.left && letters_eq(&a.x, &b.x) && letters_eq(&a.y, &b.y)
}

/// Whether every core of `a` is a core of `b`.
fn cores_within(a: &LR1ItemSet, b: &LR1ItemSet) -> (res: bool)
    ensures
        res == forall|i: int| 0 <= i < a@.len() ==> core_set(b@.to_set()).contains(#[trigger] core1(a@[i])),
{
    for i in 0..a.items.len()
        invariant
            forall|i2: int| 0 <= i2 < i ==> core_set(b@.to_set()).contains(#[trigger] core1(a@[i2])),
    {
        let mut found = false;
        for j in 0..b.items.len()
            invariant
                i < a@.len(),
                a.items@.len() == a@.len(),
                b.items@.len() == b@.len(),
                found ==> core_set(b@.to_set()).contains(core1(a@[i as int])),
                !found ==> forall|j2: int| 0 <= j2 < j ==> core1(b@[j2]) != core1(a@[i as int]),
        {
            assert(a@[i as int] == a.items@[i as int]@ && b@[j as int] == b.items@[j as int]@);
            if same_core_item(&a.items[i], &b.items[j]) {
                assert(b@.to_set().contains(b@[j as int]));
                found = true;
            }
        }
        if !found {
            proof {
                if core_set(b@.to_set()).contains(core1(a@[i as int])) {
                    let it = choose|it: SpecItem1| b@.to_set().contains(it) && core1(it) == core1(a@[i as int]);
                    let j = choose|j: int| 0 <= j < b@.len() && b@[j] == it;
                }
                assert(!core_set(b@.to_set()).contains(core1(a@[i as int])));
            }
            return false;
        }
    }
    true
}

/// Whether both sets have the same cores.
fn same_core(a: &LR1ItemSet, b: &LR1ItemSet) -> (res: bool)
    ensures
        res == (core_set(a@.to_set()) == core_set(b@.to_set())),
{
    let r1 = cores_within(a, b);
    let r2 = cores_within(b, a);
    proof {
        if r1 && r2 {
            assert forall|c: SpecItem0| core_set(a@.to_set()).contains(c) <==> core_set(b@.to_set()).contains(c) by {
                if core_set(a@.to_set()).contains(c) {
                    let it = choose|it: SpecItem1| a@.to_set().contains(it) && core1(it) == c;
                    let i = choose|i: int| 0 <= i < a@.len() && a@[i] == it;
                    assert(core_set(b@.to_set()).contains(core1(a@[i])));
                }
                if core_set(b@.to_set()).contains(c) {
                    let it = choose|it: SpecItem1| b@.to_set().contains(it) && core1(it) == c;
                    let i = choose|i: int| 0 <= i < b@.len() && b@[i] == it;
                    assert(core_set(a@.to_set()).contains(core1(b@[i])));
                }
            }
            assert(core_set(a@.to_set()) =~= core_set(b@.to_set()));
        } else if !r1 {
            let i = choose|i: int| 0 <= i < a@.len() && !core_set(b@.to_set()).contains(#[trigger] core1(a@[i]));
            assert(a@.to_set().contains(a@[i]));
            assert(core_set(a@.to_set()).contains(core1(a@[i])));
        } else {
            let i = choose|i: int| 0 <= i < b@.len() && !core_set(a@.to_set()).contains(#[trigger] core1(b@[i]));
            assert(b@.to_set().contains(b@[i]));
            assert(core_set(b@.to_set()).contains(core1(b@[i])));
        }
    }
    r1 && r2
}

proof fn lemma_group_join(sets: Seq<Set<SpecItem1>>, s: int, go0: Seq<usize>, sm: Seq<Seq<usize>>, g: int)
    requires
        0 <= s < sets.len(),
        s < usize::MAX,
        grouping_ok(sets.take(s), go0, sm),
        0 <= g < sm.len(),
        core_set(sets[sm[g][0] as int]) == core_set(sets[s]),
    ensures
        grouping_ok(sets.take(s + 1), go0.push(g as usize), sm.update(g, sm[g].push(s as usize))),
{
    let st = sets.take(s + 1);
    let s0 = sets.take(s);
    let go1 = go0.push(g as usize);
    let sm1 = sm.update(g, sm[g].push(s as usize));
    let rep = sm[g][0];
    assert(rep < s);
    assert(go0[rep as int] == g);
    assert forall|t: int| 0 <= t < st.len() implies (#[trigger] go1[t]) < sm1.len() by {}
    assert forall|t: int, u: int| 0 <= t < st.len() && 0 <= u < st.len() implies (go1[t] == go1[u] <==> core_set(#[trigger] st[t]) == core_set(#[trigger] st[u])) by {
        assert(s0[rep as int] == sets[rep as int]);
        if t < s {
            assert(st[t] == s0[t]);
            assert(go0[t] == go0[rep as int] <==> core_set(s0[t]) == core_set(s0[rep as int]));
        }
        if u < s {
            assert(st[u] == s0[u]);
            assert(go0[u] == go0[rep as int] <==> core_set(s0[u]) == core_set(s0[rep as int]));
        }
        if t < s && u < s {
            assert(go0[t] == go0[u] <==> core_set(s0[t]) == core_set(s0[u]));
        }
    }
    assert forall|k: int| 0 <= k < sm1.len() implies (#[trigger] sm1[k]).len() > 0 by {}
    assert forall|k: int, i: int| 0 <= k < sm1.len() && 0 <= i < sm1[k].len() implies (#[trigger] sm1[k][i]) < st.len() && go1[sm1[k][i] as int] == k by {
        if k == g && i == sm[g].len() {
        } else {
            assert(sm1[k][i] == sm[k][i]);
        }
    }
    assert forall|k: int, i: int, j: int| 0 <= k < sm1.len() && 0 <= i < j < sm1[k].len() implies #[trigger] sm1[k][i] < #[trigger] sm1[k][j] by {
        if k == g && j == sm[g].len() {
            assert(sm1[k][i] == sm[k][i]);
        } else {
            assert(sm1[k][i] == sm[k][i] && sm1[k][j] == sm[k][j]);
        }
    }
    assert forall|t: int| 0 <= t < st.len() implies #[trigger] sm1[go1[t] as int].contains(t as usize) by {
        if t == s {
            assert(sm1[g][sm[g].len() as int] == s as usize);
        } else {
            assert(st[t] == s0[t]);
            assert(go1[t] == go0[t]);
            assert(sm[go0[t] as int].contains(t as usize));
            let i = choose|i: int| 0 <= i < sm[go0[t] as int].len() && sm[go0[t] as int][i] == t as usize;
            if go0[t] == g {
                assert(sm1[g][i] == sm[g][i]);
            } else {
                assert(sm1[go0[t] as int] == sm[go0[t] as int]);
            }
            assert(sm1[go0[t] as int][i] == t as usize);
        }
    }
    assert forall|k: int, l: int| 0 <= k < l < sm1.len() implies #[trigger] sm1[k][0] < #[trigger] sm1[l][0] by {
        assert(sm1[k][0] == sm[k][0] && sm1[l][0] == sm[l][0]);
    }
}

proof fn lemma_group_new(sets: Seq<Set<SpecItem1>>, s: int, go0: Seq<usize>, sm: Seq<Seq<usize>>)
    requires
        0 <= s < sets.len(),
        s < usize::MAX,
        grouping_ok(sets.take(s), go0, sm),
        sm.len() <= usize::MAX,
        forall|g: int| 0 <= g < sm.len() ==> core_set(sets[#[trigger] sm[g][0] as int]) != core_set(sets[s]),
    ensures
        grouping_ok(sets.take(s + 1), go0.push(sm.len() as usize), sm.push(seq![s as usize])),
{
    let st = sets.take(s + 1);
    let s0 = sets.take(s);
    let ng = sm.len() as usize;
    let go1 = go0.push(ng);
    let sm1 = sm.push(seq![s as usize]);
    assert forall|t: int| 0 <= t < st.len() implies (#[trigger] go1[t]) < sm1.len() by {}
    assert forall|t: int, u: int| 0 <= t < st.len() && 0 <= u < st.len() implies (go1[t] == go1[u] <==> core_set(#[trigger] st[t]) == core_set(#[trigger] st[u])) by {
        if t < s {
            assert(st[t] == s0[t]);
            let r = sm[go0[t] as int][0];
            assert(go0[r as int] == go0[t]);
            assert(core_set(s0[t]) == core_set(s0[r as int]));
            assert(s0[r as int] == sets[r as int]);
        }
        if u < s {
            assert(st[u] == s0[u]);
            let r = sm[go0[u] as int][0];
            assert(go0[r as int] == go0[u]);
            assert(core_set(s0[u]) == core_set(s0[r as int]));
            assert(s0[r as int] == sets[r as int]);
        }
        if t < s && u < s {
            assert(go0[t] == go0[u] <==> core_set(s0[t]) == core_set(s0[u]));
        }
    }
    assert forall|k: int| 0 <= k < sm1.len() implies (#[trigger] sm1[k]).len() > 0 by {}
    assert forall|k: int, i: int| 0 <= k < sm1.len() && 0 <= i < sm1[k].len() implies (#[trigger] sm1[k][i]) < st.len() && go1[sm1[k][i] as int] == k by {
        if k < sm.len() {
            assert(sm1[k][i] == sm[k][i]);
        }
    }
    assert forall|k: int, i: int, j: int| 0 <= k < sm1.len() && 0 <= i < j < sm1[k].len() implies #[trigger] sm1[k][i] < #[trigger] sm1[k][j] by {
        assert(sm1[k] == sm[k]);
    }
    assert forall|t: int| 0 <= t < st.len() implies #[trigger] sm1[go1[t] as int].contains(t as usize) by {
        if t == s {
            assert(sm1[ng as int][0] == s as usize);
        } else {
            assert(st[t] == s0[t]);
            assert(sm[go0[t] as int].contains(t as usize));
            let i = choose|i: int| 0 <= i < sm[go0[t] as int].len() && sm[go0[t] as int][i] == t as usize;
            assert(sm1[go0[t] as int] == sm[go0[t] as int]);
            assert(sm1[go0[t] as int][i] == t as usize);
        }
    }
    assert forall|k: int, l: int| 0 <= k < l < sm1.len() implies #[trigger] sm1[k][0] < #[trigger] sm1[l][0] by {
        if l == sm.len() {
            assert(sm[k][0] < s);
        }
    }
}

/// Groups the item sets of a family by their cores.
pub fn group_states(data: &LR1ItemSetFamily) -> (res: (Vec<usize>, Vec<Vec<usize>>))
    ensures
        grouping_ok(data.sets(), res.0@, sm_view(res.1@)),
{
    let ghost sets = data.sets();
    let mut group_of: Vec<usize> = Vec::new();
    let mut state_map: Vec<Vec<usize>> = Vec::new();
    for s in 0..data.item_sets.len()
        invariant
            sets == data.sets(),
            grouping_ok(sets.take(s as int), group_of@, state_map@.map_values(|v: Vec<usize>| v@)),
    {
        let ghost sm = state_map@.map_values(|v: Vec<usize>| v@);
        assert(sets.take(s as int + 1).take(s as int) =~= sets.take(s as int));
        assert(sets[s as int] == data.item_sets@[s as int]@.to_set());
        let mut found: Option<usize> = None;
        let mut k: usize = 0;
        while k < state_map.len() && found.is_none()
            invariant
                sm == state_map@.map_values(|v: Vec<usize>| v@),
                k <= state_map@.len(),
                grouping_ok(sets.take(s as int), group_of@, sm),
                sets == data.sets(),
                s < sets.len(),
                match found {
                    Some(g) => g < state_map@.len() && core_set(sets[sm[g as int][0] as int]) == core_set(sets[s as int]),
                    None => forall|g: int| 0 <= g < k ==> core_set(sets[#[trigger] sm[g][0] as int]) != core_set(sets[s as int]),
                },
            decreases state_map@.len() - k + (if found is None { 1int } else { 0int }),
        {
            assert(state_map@[k as int]@ == sm[k as int]);
            assert(sm[k as int].len() > 0);
            let rep = state_map[k][0];
            assert(sm[k as int][0] == rep);
            assert(rep < s);
            assert(sets[rep as int] == data.item_sets@[rep as int]@.to_set());
            if same_core(&data.item_sets[rep], &data.item_sets[s]) {
                found = Some(k);
            } else {
                k = k + 1;
            }
        }
        let ghost go0 = group_of@;
        let ghost st = sets.take(s as int + 1);
        assert forall|t: int| 0 <= t < s implies st[t] == sets.take(s as int)[t] by {}
        match found {
            Some(g) => {
                let mut row = state_map[g].clone();
                assert(row@ == sm[g as int]);
                row.push(s);
                state_map.set(g, row);
                group_of.push(g);
                proof {
                    let sm2 = state_map@.map_values(|v: Vec<usize>| v@);
                    assert(sm2 == sm.update(g as int, sm[g as int].push(s)));
                    let rep = sm[g as int][0];
                    assert(st[s as int] == sets[s as int]);
                    assert forall|t: int, u: int|
                        0 <= t < st.len() && 0 <= u < st.len() implies (group_of@[t] == group_of@[u] <==> core_set(#[trigger] st[t]) == core_set(#[trigger] st[u])) by {
                        if t < s {
                            assert(core_set(st[t]) == core_set(sets.take(s as int)[t]));
                            assert(group_of@[t] == go0[t]);
                            assert(core_set(sets.take(s as int)[t]) == core_set(sets.take(s as int)[rep as int]) <==> go0[t] == go0[rep as int]);
                        }
                        if u < s {
                            assert(core_set(st[u]) == core_set(sets.take(s as int)[u]));
                            assert(group_of@[u] == go0[u]);
                            assert(core_set(sets.take(s as int)[u]) == core_set(sets.take(s as int)[rep as int]) <==> go0[u] == go0[rep as int]);
                        }
                        assert(sets.take(s as int)[rep as int] == sets[rep as int]);
                        assert(go0[rep as int] == g);
                    }
                    lemma_group_join(sets, s as int, go0, sm, g as int);
                    assert(group_of@ == go0.push(g));
                }
            },
            None => {
                let mut row: Vec<usize> = Vec::new();
                row.push(s);
                let ng = state_map.len();
                state_map.push(row);
                group_of.push(ng);
                proof {
                    let sm2 = state_map@.map_values(|v: Vec<usize>| v@);
                    assert(sm2 == sm.push(seq![s]));
                    assert forall|t: int, u: int|
                        0 <= t < st.len() && 0 <= u < st.len() implies (group_of@[t] == group_of@[u] <==> core_set(#[trigger] st[t]) == core_set(#[trigger] st[u])) by {
                        if t < s {
                            assert(core_set(st[t]) == core_set(sets.take(s as int)[t]));
                            assert(group_of@[t] == go0[t]);
                            let r = sm[go0[t] as int][0];
                            assert(go0[r as int] == go0[t]);
                            assert(core_set(sets.take(s as int)[t]) == core_set(sets.take(s as int)[r as int]));
                            assert(sets.take(s as int)[r as int] == sets[r as int]);
                        }
                        if u < s {
                            assert(core_set(st[u]) == core_set(sets.take(s as int)[u]));
                            assert(group_of@[u] == go0[u]);
                            let r = sm[go0[u] as int][0];
                            assert(go0[r as int] == go0[u]);
                            assert(core_set(sets.take(s as int)[u]) == core_set(sets.take(s as int)[r as int]));
                            assert(sets.take(s as int)[r as int] == sets[r as int]);
                        }
                    }
                    lemma_group_new(sets, s as int, go0, sm);
                    assert(group_of@ == go0.push(ng));
                }
            },
        }
    }
    assert(sets.take(sets.len() as int) =~= sets);
    assert(sm_view(state_map@) == state_map@.map_values(|v: Vec<usize>| v@));
    (group_of, state_map)
}

/// The items of the states `members`, each once.
fn merged_items(data: &LR1ItemSetFamily, members: &Vec<usize>) -> (res: Vec<LR1Item>)
    requires
        forall|i: int| 0 <= i < members@.len() ==> (#[trigger] members@[i]) < data.item_sets@.len(),
    ensures
        items1_view(res@).no_duplicates(),
        items1_view(res@).to_set() == merged_of(data.sets(), members@),
{
    let ghost sets = data.sets();
    let mut v: Vec<LR1Item> = Vec::new();
    for i in 0..members.len()
        invariant
            sets == data.sets(),
            forall|i: int| 0 <= i < members@.len() ==> (#[trigger] members@[i]) < data.item_sets@.len(),
            items1_view(v@).no_duplicates(),
            items1_view(v@).to_set() == merged_of(sets, members@.take(i as int)),
    {
        let st = members[i];
        let items = &data.item_sets[st].items;
        assert(sets[st as int] == data.item_sets@[st as int]@.to_set());
        let ghost before = items1_view(v@).to_set();
        for j in 0..items.len()
            invariant
                st < data.item_sets@.len(),
                *items == data.item_sets@[st as int].items,
                items1_view(v@).no_duplicates(),
                items1_view(v@).to_set() == before.union(items1_view(items@.take(j as int)).to_set()),
        {
            let ghost bv = v@;
            if !contains_item1(&v, &items[j]) {
                v.push(items[j].clone());
                proof {
                    lemma_items1_push(bv, v@.last());
                    lemma_push_no_dup(items1_view(bv), items@[j as int]@);
                    items1_view(bv).lemma_push_to_set_commute(items@[j as int]@);
                }
            }
            proof {
                lemma_items1_push(items@.take(j as int), items@[j as int]);
                assert(items@.take(j + 1) =~= items@.take(j as int).push(items@[j as int]));
                items1_view(items@.take(j as int)).lemma_push_to_set_commute(items@[j as int]@);
            }
        }
        proof {
            assert(items@.take(items@.len() as int) =~= items@);
            assert(items1_view(items@) == data.item_sets@[st as int]@);
            assert(members@.take(i + 1) =~= members@.take(i as int).push(st));
            assert forall|it: SpecItem1| items1_view(v@).to_set().contains(it) <==> merged_of(sets, members@.take(i + 1)).contains(it) by {
                let m1 = members@.take(i + 1);
                if sets[st as int].contains(it) {
                    assert(m1[i as int] == st);
                    assert(sets[m1[i as int] as int].contains(it));
                }
                if merged_of(sets, members@.take(i as int)).contains(it) {
                    let i2 = choose|i2: int| 0 <= i2 < members@.take(i as int).len() && #[trigger] sets[members@.take(i as int)[i2] as int].contains(it);
                    assert(m1[i2] == members@.take(i as int)[i2]);
                }
                if merged_of(sets, m1).contains(it) {
                    let i2 = choose|i2: int| 0 <= i2 < m1.len() && #[trigger] sets[m1[i2] as int].contains(it);
                    if i2 < i {
                        assert(m1[i2] == members@.take(i as int)[i2]);
                        assert(merged_of(sets, members@.take(i as int)).contains(it));
                    }
                }
            }
            assert(items1_view(v@).to_set() =~= merged_of(sets, members@.take(i + 1)));
        }
    }
    assert(members@.take(members@.len() as int) =~= members@);
    v
}

/// A merged state of states without shift-reduce conflicts and with one core has none.
proof fn lemma_merged_sr_free(sets: Seq<Set<SpecItem1>>, group_of: Seq<usize>, sm: Seq<Seq<usize>>, k: int)
    requires
        grouping_ok(sets, group_of, sm),
        0 <= k < sm.len(),
        forall|s: int| 0 <= s < sets.len() ==> #[trigger] sr_free(sets[s]),
    ensures
        sr_free(merged(sets, sm, k)),
{
    let m = merged(sets, sm, k);
    assert forall|a: SpecItem1, b: SpecItem1|
        m.contains(a) && m.contains(b) && a.y.len() == 0 && b.y.len() > 0 && b.y[0] is Terminal implies b.y[0] != a.expected by {
        let i = choose|i: int| 0 <= i < sm[k].len() && #[trigger] sets[sm[k][i] as int].contains(a);
        let j = choose|j: int| 0 <= j < sm[k].len() && #[trigger] sets[sm[k][j] as int].contains(b);
        let s1 = sm[k][i] as int;
        let s2 = sm[k][j] as int;
        assert(group_of[s1] == k && group_of[s2] == k);
        assert(core_set(sets[s1]) == core_set(sets[s2]));
        assert(core_set(sets[s2]).contains(core1(b)));
        assert(core_set(sets[s1]).contains(core1(b)));
        let b2 = choose|b2: SpecItem1| sets[s1].contains(b2) && core1(b2) == core1(b);
        assert(b2.y == b.y);
        assert(sr_free(sets[s1]));
    }
}

/// Whether the items ready to reduce of `v` (each once) expect distinct symbols.
fn rr_check(items: &Vec<LR1Item>) -> (res: bool)
    requires
        items1_view(items@).no_duplicates(),
    ensures
        res == rr_free(items1_view(items@).to_set()),
{
    let ghost v = items1_view(items@);
    for i in 0..items.len()
        invariant
            v == items1_view(items@),
            v.no_duplicates(),
            forall|a: int, b: int| 0 <= a < i && 0 <= b < v.len() && a != b && v[a].y.len() == 0 && v[b].y.len() == 0 ==> v[a].expected != v[b].expected,
    {
        assert(items@[i as int]@ == v[i as int]);
        if items[i].y.len() == 0 {
            for j in 0..items.len()
                invariant
                    v == items1_view(items@),
                    v.no_duplicates(),
                    0 <= i < v.len(),
                    v[i as int].y.len() == 0,
                    forall|a: int, b: int| 0 <= a < i && 0 <= b < v.len() && a != b && v[a].y.len() == 0 && v[b].y.len() == 0 ==> v[a].expected != v[b].expected,
                    forall|b: int| 0 <= b < j && b != i && v[b].y.len() == 0 ==> v[i as int].expected != v[b].expected,
            {
                assert(items@[j as int]@ == v[j as int]);
                if j != i && items[j].y.len() == 0 && items[j].expected == items[i].expected {
                    proof {
                        assert(v[i as int] != v[j as int]);
                        assert(v.to_set().contains(v[i as int]) && v.to_set().contains(v[j as int]));
                    }
                    return false;
                }
            }
        }
    }
    proof {
        assert forall|a: SpecItem1, b: SpecItem1| v.to_set().contains(a) && v.to_set().contains(b) && a != b && a.y.len() == 0 && b.y.len() == 0 implies a.expected != b.expected by {
            let ia = choose|ia: int| 0 <= ia < v.len() && v[ia] == a;
            let ib = choose|ib: int| 0 <= ib < v.len() && v[ib] == b;
        }
    }
    true
}

/// The state map as sequences.
pub open spec fn sm_view(sm: Seq<Vec<usize>>) -> Seq<Seq<usize>> {
    sm.map_values(|v: Vec<usize>| v@)
}

/// Whether no merged state has a reduce-reduce conflict.
fn is_lalr1_grammar_helper(data: &LR1ItemSetFamily, group_of: &Vec<usize>, state_map: &Vec<Vec<usize>>) -> (res: bool)
    requires
        grouping_ok(data.sets(), group_of@, sm_view(state_map@)),
    ensures
        res == lalr_ok(data.sets(), sm_view(state_map@)),
{
    let ghost sm = sm_view(state_map@);
    for k in 0..state_map.len()
        invariant
            sm == sm_view(state_map@),
            grouping_ok(data.sets(), group_of@, sm),
            forall|k2: int| 0 <= k2 < k ==> #[trigger] rr_free(merged(data.sets(), sm, k2)),
    {
        assert(state_map@[k as int]@ == sm[k as int]);
        assert forall|i: int| 0 <= i < state_map@[k as int]@.len() implies (#[trigger] state_map@[k as int]@[i]) < data.item_sets@.len() by {
            assert(sm[k as int][i] < data.sets().len());
        }
        let v = merged_items(data, &state_map[k]);
        if !rr_check(&v) {
            assert(!rr_free(merged(data.sets(), sm, k as int)));
            return false;
        }
    }
    true
}

/// Whether the grammar is LALR(1): no LR(1) state has a shift-reduce conflict (else the
/// grammar is not even LR(1)), and merging the LR(1) states of equal cores leaves no
/// reduce-reduce conflict.
pub fn is_lalr1_grammar(g: &Grammar) -> (res: bool)
    requires
        g@.wf(),
        node_count(g@) + edge_budget(g@.rules) + 1 < i32::MAX,
    ensures
        exists|f: LR1ItemSetFamily, ff: FirstFollowSet, group_of: Seq<usize>, sm: Seq<Seq<usize>>|
            ff.of_grammar(g@) && f.of_grammar(g@, ff.first_set@) && grouping_ok(f.sets(), group_of, sm) && res == (
            (forall|s: int| 0 <= s < f.sets().len() ==> #[trigger] sr_free(f.sets()[s])) && lalr_ok(f.sets(), sm)),
{
    let data = LR1ItemSetFamily::from_grammar(g);
    let (group_of, state_map) = group_states(&data);
    let free = family_sr_free(&data);
    let res = if free {
        is_lalr1_grammar_helper(&data, &group_of, &state_map)
    } else {
        false
    };
    proof {
        let ff = choose|ff: FirstFollowSet| ff.of_grammar(g@) && data.of_grammar(g@, ff.first_set@);
        assert(ff.of_grammar(g@) && data.of_grammar(g@, ff.first_set@) && grouping_ok(data.sets(), group_of@, sm_view(state_map@))
            && res == ((forall|s: int| 0 <= s < data.sets().len() ==> #[trigger] sr_free(data.sets()[s])) && lalr_ok(
            data.sets(),
            sm_view(state_map@),
        )));
    }
    res
}

/// The merged state that GO of the first state of group `k` over `x` lands in.
pub open spec fn lalr_target(f: &LR1ItemSetFamily, group_of: Seq<usize>, rep: usize, x: SpecLetter) -> usize {
    match go_row_map1(f.go_function@[rep as int]@)[x] {
        GoFunctionItem::Step(t) => group_of[t as int],
        GoFunctionItem::Error => 0,
    }
}

/// Whether some item of `s` has the non terminal `x` after its dot.
pub open spec fn pends1(s: Set<SpecItem1>, x: SpecLetter) -> bool {
    exists|b: SpecItem1| s.contains(b) && b.y.len() > 0 && b.y[0] is NonTerminal && b.y[0] == x
}

/// The LALR(1) ACTION entry of merged state `k` for `x`.
pub open spec fn lalr_entry(g: SpecGrammar, f: &LR1ItemSetFamily, group_of: Seq<usize>, sm: Seq<Seq<usize>>, k: int, x: SpecLetter) -> SpecAction {
    let m = merged(f.sets(), sm, k);
    if shifts1(m, x) {
        SpecAction::Step(lalr_target(f, group_of, sm[k][0], x))
    } else if reduces1(m, x) {
        let a = reducer1(m, x);
        if a.left == g.origin && x == SpecLetter::EndSign {
            SpecAction::Accept
        } else {
            SpecAction::Reduce(item_rule(a.left, a.x, a.y))
        }
    } else {
        SpecAction::Error
    }
}

/// The LALR(1) ACTION row of merged state `k`.
pub open spec fn lalr_action_row(g: SpecGrammar, f: &LR1ItemSetFamily, group_of: Seq<usize>, sm: Seq<Seq<usize>>, k: int) -> Map<SpecLetter, SpecAction> {
    Map::new(
        |x: SpecLetter| action_keys(g, x) || shifts1(merged(f.sets(), sm, k), x) || reduces1(merged(f.sets(), sm, k), x),
        |x: SpecLetter| lalr_entry(g, f, group_of, sm, k, x),
    )
}

/// The LALR(1) GOTO row of merged state `k`.
pub open spec fn lalr_goto_row(g: SpecGrammar, f: &LR1ItemSetFamily, group_of: Seq<usize>, sm: Seq<Seq<usize>>, k: int) -> Map<SpecLetter, GotoTableItem> {
    Map::new(
        |x: SpecLetter| g.non_terminals.contains(x) || pends1(merged(f.sets(), sm, k), x),
        |x: SpecLetter|
            if pends1(merged(f.sets(), sm, k), x) {
                GotoTableItem::Step(lalr_target(f, group_of, sm[k][0], x))
            } else {
                GotoTableItem::Error
            },
    )
}

/// The LALR(1) table of a family and its grouping.
pub open spec fn lalr_table_of(t: &LALRTable, g: SpecGrammar, f: &LR1ItemSetFamily, group_of: Seq<usize>, sm: Seq<Seq<usize>>) -> bool {
    &&& sm_view(t.state_map@) == sm
    &&& t.goto@.len() == sm.len()
    &&& t.action@.len() == sm.len()
    &&& forall|k: int| 0 <= k < sm.len() ==> #[trigger] t.goto_maps()[k] == lalr_goto_row(g, f, group_of, sm, k)
    &&& forall|k: int| 0 <= k < sm.len() ==> #[trigger] t.action_maps()[k] == lalr_action_row(g, f, group_of, sm, k)
}

/// The successor of the first state of group `k` over the symbol after the dot of `b`,
/// an item of the group, as a merged state.
fn lalr_step_target(
    g: &Grammar,
    data: &LR1ItemSetFamily,
    group_of: &Vec<usize>,
    state_map: &Vec<Vec<usize>>,
    k: usize,
    b: &LR1Item,
    Ghost(m): Ghost<Seq<(Letter, Vec<Letter>)>>,
) -> (res: usize)
    requires
        g@.wf(),
        data.of_grammar(g@, m),
        grouping_ok(data.sets(), group_of@, sm_view(state_map@)),
        k < state_map@.len(),
        merged(data.sets(), sm_view(state_map@), k as int).contains(b@),
        b@.y.len() > 0,
    ensures
        res == lalr_target(data, group_of@, sm_view(state_map@)[k as int][0], b@.y[0]),
        go_row_map1(data.go_function@[sm_view(state_map@)[k as int][0] as int]@)[b@.y[0]] is Step,
{
    let ghost sets = data.sets();
    let ghost sm = sm_view(state_map@);
    let ghost w = Ctx1 { rules: g@.rules, m };
    assert(state_map@[k as int]@ == sm[k as int]);
    let rep = state_map[k][0];
    assert(b.y@[0]@ == b@.y[0]);
    let x = &b.y[0];
    proof {
        let i = choose|i: int| 0 <= i < sm[k as int].len() && #[trigger] sets[sm[k as int][i] as int].contains(b@);
        let s1 = sm[k as int][i] as int;
        assert(group_of@[s1] == k && group_of@[rep as int] == k);
        assert(core_set(sets[s1]) == core_set(sets[rep as int]));
        assert(core_set(sets[s1]).contains(core1(b@)));
        let b2 = choose|b2: SpecItem1| sets[rep as int].contains(b2) && core1(b2) == core1(b@);
        assert(sets[rep as int].subset_of(good1(g@.rules, m)));
        lemma_good_symbol(g@, m, b2);
        assert(signs_of(g@).contains(x@));
        lemma_go_row_has1(data, g@, m, rep as int, x@);
        lemma_go1_nonempty(sets[rep as int], g@.rules, m, b2);
    }
    match go_get1(&data.go_function[rep], x) {
        Some(GoFunctionItem::Step(t)) => {
            proof {
                let i = choose|i: int| 0 <= i < data.go_function@[rep as int]@.len() && data.go_function@[rep as int]@[i].0@ == x@
                    && data.go_function@[rep as int]@[i].1 == GoFunctionItem::Step(t);
                assert(go_entry_ok1(sets, w, rep as int, data.go_function@[rep as int]@[i].0@, data.go_function@[rep as int]@[i].1));
            }
            group_of[t]
        },
        Some(GoFunctionItem::Error) => {
            proof {
                let i = choose|i: int| 0 <= i < data.go_function@[rep as int]@.len() && data.go_function@[rep as int]@[i].0@ == x@
                    && data.go_function@[rep as int]@[i].1 == GoFunctionItem::Error;
                assert(go_entry_ok1(sets, w, rep as int, data.go_function@[rep as int]@[i].0@, data.go_function@[rep as int]@[i].1));
                let b2 = choose|b2: SpecItem1| sets[rep as int].contains(b2) && core1(b2) == core1(b@);
                assert(go1(sets[rep as int], w, x@).contains(spec_shift1(b2)));
            }
            0
        },
        None => 0,
    }
}

/// Whether item `a` writes an ACTION entry for `x`.
pub open spec fn writes_a(a: SpecItem1, x: SpecLetter) -> bool {
    (a.y.len() > 0 && a.y[0] is Terminal && a.y[0] == x) || (a.y.len() == 0 && a.expected == x)
}

/// The rows of merged state `k`.
#[verifier::rlimit(60)]
fn lalr_rows_of(
    g: &Grammar,
    data: &LR1ItemSetFamily,
    group_of: &Vec<usize>,
    state_map: &Vec<Vec<usize>>,
    k: usize,
    Ghost(m): Ghost<Seq<(Letter, Vec<Letter>)>>,
) -> (res: (Vec<(Letter, GotoTableItem)>, Vec<(Letter, ActionTableItem)>))
    requires
        g@.wf(),
        data.of_grammar(g@, m),
        grouping_ok(data.sets(), group_of@, sm_view(state_map@)),
        lalr_ok(data.sets(), sm_view(state_map@)),
        forall|s: int| 0 <= s < data.sets().len() ==> #[trigger] sr_free(data.sets()[s]),
        k < state_map@.len(),
    ensures
        goto_map(res.0@) == lalr_goto_row(g@, data, group_of@, sm_view(state_map@), k as int),
        action_map(res.1@) == lalr_action_row(g@, data, group_of@, sm_view(state_map@), k as int),
{
    let ghost sets = data.sets();
    let ghost sm = sm_view(state_map@);
    let ghost mset = merged(sets, sm, k as int);
    assert(state_map@[k as int]@ == sm[k as int]);
    assert forall|i: int| 0 <= i < state_map@[k as int]@.len() implies (#[trigger] state_map@[k as int]@[i]) < data.item_sets@.len() by {
        assert(sm[k as int][i] < sets.len());
    }
    let items = merged_items(data, &state_map[k]);
    let ghost v = items1_view(items@);
    proof {
        lemma_merged_sr_free(sets, group_of@, sm, k as int);
        assert(rr_free(mset));
    }
    let mut row: Vec<(Letter, ActionTableItem)> = Vec::new();
    let mut grow: Vec<(Letter, GotoTableItem)> = Vec::new();
    for i in 0..items.len()
        invariant
            g@.wf(),
            data.of_grammar(g@, m),
            grouping_ok(data.sets(), group_of@, sm),
            sm == sm_view(state_map@),
            sets == data.sets(),
            k < state_map@.len(),
            mset == merged(sets, sm, k as int),
            v == items1_view(items@),
            v.to_set() == mset,
            sr_free(mset),
            rr_free(mset),
            forall|x: SpecLetter| action_map(row@).dom().contains(x) <==> exists|j: int| 0 <= j < i && #[trigger] writes_a(v[j], x),
            forall|x: SpecLetter| action_map(row@).dom().contains(x) ==> action_map(row@)[x] == lalr_entry(g@, data, group_of@, sm, k as int, x),
            forall|x: SpecLetter| goto_map(grow@).dom().contains(x) <==> exists|j: int| 0 <= j < i && #[trigger] v[j].y.len() > 0 && v[j].y[0] is NonTerminal && v[j].y[0] == x,
            forall|x: SpecLetter| goto_map(grow@).dom().contains(x) ==> goto_map(grow@)[x] == GotoTableItem::Step(lalr_target(data, group_of@, sm[k as int][0], x)),
    {
        assert(items@[i as int]@ == v[i as int]);
        let item = &items[i];
        let ghost a = v[i as int];
        assert(mset.contains(a));
        if item.y.len() == 0 {
            let x = &item.expected;
            proof {
                assert(!shifts1(mset, x@)) by {
                    if shifts1(mset, x@) {
                        let b2 = choose|b2: SpecItem1| mset.contains(b2) && b2.y.len() > 0 && b2.y[0] is Terminal && b2.y[0] == x@;
                    }
                }
                assert(reduces1(mset, x@));
                let r = reducer1(mset, x@);
                if r != a {
                    assert(r.expected == a.expected);
                }
                assert(r == a);
            }
            let e = if item.left == g.origin && item.expected.is_end_sign() {
                ActionTableItem::Accept
            } else {
                ActionTableItem::Reduce(item.rule())
            };
            assert(e@ == lalr_entry(g@, data, group_of@, sm, k as int, x@));
            action_put(&mut row, x.clone(), e);
            proof {
                assert forall|y: SpecLetter| action_map(row@).dom().contains(y) <==> exists|j: int| 0 <= j < i + 1 && #[trigger] writes_a(v[j], y) by {
                    if y == x@ {
                        assert(writes_a(v[i as int], y));
                    } else if exists|j: int| 0 <= j < i + 1 && #[trigger] writes_a(v[j], y) {
                        let j = choose|j: int| 0 <= j < i + 1 && #[trigger] writes_a(v[j], y);
                        if j == i {
                            assert(false);
                        }
                    }
                }
                assert forall|y: SpecLetter| goto_map(grow@).dom().contains(y) <==> exists|j: int| 0 <= j < i + 1 && #[trigger] v[j].y.len() > 0 && v[j].y[0] is NonTerminal && v[j].y[0] == y by {
                    if exists|j: int| 0 <= j < i + 1 && #[trigger] v[j].y.len() > 0 && v[j].y[0] is NonTerminal && v[j].y[0] == y {
                        let j = choose|j: int| 0 <= j < i + 1 && #[trigger] v[j].y.len() > 0 && v[j].y[0] is NonTerminal && v[j].y[0] == y;
                        assert(j != i);
                    }
                }
            }
        } else {
            assert(item.y@[0]@ == a.y[0]);
            let t = lalr_step_target(g, data, group_of, state_map, k, item, Ghost(m));
            if item.y[0].is_terminal() {
                let x = &item.y[0];
                proof {
                    assert(shifts1(mset, x@));
                }
                action_put(&mut row, x.clone(), ActionTableItem::Step(t));
                proof {
                    assert forall|y: SpecLetter| action_map(row@).dom().contains(y) <==> exists|j: int| 0 <= j < i + 1 && #[trigger] writes_a(v[j], y) by {
                        if y == x@ {
                            assert(writes_a(v[i as int], y));
                        } else if exists|j: int| 0 <= j < i + 1 && #[trigger] writes_a(v[j], y) {
                            let j = choose|j: int| 0 <= j < i + 1 && #[trigger] writes_a(v[j], y);
                            if j == i {
                                assert(false);
                            }
                        }
                    }
                    assert forall|y: SpecLetter| goto_map(grow@).dom().contains(y) <==> exists|j: int| 0 <= j < i + 1 && #[trigger] v[j].y.len() > 0 && v[j].y[0] is NonTerminal && v[j].y[0] == y by {
                        if exists|j: int| 0 <= j < i + 1 && #[trigger] v[j].y.len() > 0 && v[j].y[0] is NonTerminal && v[j].y[0] == y {
                            let j = choose|j: int| 0 <= j < i + 1 && #[trigger] v[j].y.len() > 0 && v[j].y[0] is NonTerminal && v[j].y[0] == y;
                            assert(j != i);
                        }
                    }
                }
            } else if item.y[0].is_non_terminal() {
                let x = &item.y[0];
                proof {
                    assert(pends1(mset, x@));
                }
                goto_put(&mut grow, x.clone(), GotoTableItem::Step(t));
                proof {
                    assert forall|y: SpecLetter| action_map(row@).dom().contains(y) <==> exists|j: int| 0 <= j < i + 1 && #[trigger] writes_a(v[j], y) by {
                        if exists|j: int| 0 <= j < i + 1 && #[trigger] writes_a(v[j], y) {
                            let j = choose|j: int| 0 <= j < i + 1 && #[trigger] writes_a(v[j], y);
                            assert(j != i);
                        }
                    }
                    assert forall|y: SpecLetter| goto_map(grow@).dom().contains(y) <==> exists|j: int| 0 <= j < i + 1 && #[trigger] v[j].y.len() > 0 && v[j].y[0] is NonTerminal && v[j].y[0] == y by {
                        if y == x@ {
                            assert(v[i as int].y.len() > 0 && v[i as int].y[0] is NonTerminal && v[i as int].y[0] == y);
                        }
                    }
                }
            } else {
                proof {
                    assert forall|y: SpecLetter| action_map(row@).dom().contains(y) <==> exists|j: int| 0 <= j < i + 1 && #[trigger] writes_a(v[j], y) by {
                        if exists|j: int| 0 <= j < i + 1 && #[trigger] writes_a(v[j], y) {
                            let j = choose|j: int| 0 <= j < i + 1 && #[trigger] writes_a(v[j], y);
                            assert(j != i);
                        }
                    }
                    assert forall|y: SpecLetter| goto_map(grow@).dom().contains(y) <==> exists|j: int| 0 <= j < i + 1 && #[trigger] v[j].y.len() > 0 && v[j].y[0] is NonTerminal && v[j].y[0] == y by {
                        if exists|j: int| 0 <= j < i + 1 && #[trigger] v[j].y.len() > 0 && v[j].y[0] is NonTerminal && v[j].y[0] == y {
                            let j = choose|j: int| 0 <= j < i + 1 && #[trigger] v[j].y.len() > 0 && v[j].y[0] is NonTerminal && v[j].y[0] == y;
                            assert(j != i);
                        }
                    }
                }
            }
        }
    }
    proof {
        assert forall|x: SpecLetter| action_map(row@).dom().contains(x) <==> (shifts1(mset, x) || reduces1(mset, x)) by {
            if action_map(row@).dom().contains(x) {
                let j = choose|j: int| 0 <= j < v.len() && #[trigger] writes_a(v[j], x);
                assert(mset.contains(v[j]));
            }
            if shifts1(mset, x) {
                let b2 = choose|b2: SpecItem1| mset.contains(b2) && b2.y.len() > 0 && b2.y[0] is Terminal && b2.y[0] == x;
                let j = choose|j: int| 0 <= j < v.len() && v[j] == b2;
                assert(writes_a(v[j], x));
            }
            if reduces1(mset, x) {
                let b2 = choose|b2: SpecItem1| mset.contains(b2) && b2.y.len() == 0 && b2.expected == x;
                let j = choose|j: int| 0 <= j < v.len() && v[j] == b2;
                assert(writes_a(v[j], x));
            }
        }
        assert forall|x: SpecLetter| goto_map(grow@).dom().contains(x) <==> pends1(mset, x) by {
            if goto_map(grow@).dom().contains(x) {
                let j = choose|j: int| 0 <= j < v.len() && #[trigger] v[j].y.len() > 0 && v[j].y[0] is NonTerminal && v[j].y[0] == x;
                assert(mset.contains(v[j]));
            }
            if pends1(mset, x) {
                let b2 = choose|b2: SpecItem1| mset.contains(b2) && b2.y.len() > 0 && b2.y[0] is NonTerminal && b2.y[0] == x;
                let j = choose|j: int| 0 <= j < v.len() && v[j] == b2;
                assert(v[j].y.len() > 0 && v[j].y[0] is NonTerminal && v[j].y[0] == x);
            }
        }
    }
    let ghost base = action_map(row@);
    for t in 0..g.terminals.len()
        invariant
            g@.wf(),
            forall|x: SpecLetter| base.dom().contains(x) <==> (shifts1(mset, x) || reduces1(mset, x)),
            forall|x: SpecLetter| base.dom().contains(x) ==> base[x] == lalr_entry(g@, data, group_of@, sm, k as int, x),
            mset == merged(data.sets(), sm, k as int),
            action_map(row@) == Map::new(
                |x: SpecLetter| base.dom().contains(x) || g@.terminals.take(t as int).contains(x),
                |x: SpecLetter| lalr_entry(g@, data, group_of@, sm, k as int, x),
            ),
    {
        let tl = &g.terminals[t];
        assert(tl@ == g@.terminals[t as int]);
        proof {
            broadcast use vstd::seq_lib::lemma_seq_contains_after_push;
            assert(g@.terminals.take(t + 1) =~= g@.terminals.take(t as int).push(tl@));
        }
        if action_get(&row, tl).is_none() {
            assert(lalr_entry(g@, data, group_of@, sm, k as int, tl@) == SpecAction::Error);
            action_put(&mut row, tl.clone(), ActionTableItem::Error);
        }
        assert(action_map(row@) =~= Map::new(
            |x: SpecLetter| base.dom().contains(x) || g@.terminals.take(t + 1).contains(x),
            |x: SpecLetter| lalr_entry(g@, data, group_of@, sm, k as int, x),
        ));
    }
    assert(g@.terminals.take(g@.terminals.len() as int) =~= g@.terminals);
    let ghost m1 = action_map(row@);
    assert(m1 == Map::new(
        |x: SpecLetter| base.dom().contains(x) || g@.terminals.contains(x),
        |x: SpecLetter| lalr_entry(g@, data, group_of@, sm, k as int, x),
    ));
    let end = Letter::EndSign;
    if action_get(&row, &end).is_none() {
        assert(lalr_entry(g@, data, group_of@, sm, k as int, end@) == SpecAction::Error);
        action_put(&mut row, end, ActionTableItem::Error);
        assert(action_map(row@) == m1.insert(SpecLetter::EndSign, SpecAction::Error));
    } else {
        assert(m1.dom().contains(SpecLetter::EndSign));
        assert(action_map(row@) == m1);
    }
    assert(forall|x: SpecLetter| x != SpecLetter::EndSign ==> (action_map(row@).dom().contains(x) == m1.dom().contains(x)));
    assert(forall|x: SpecLetter| x != SpecLetter::EndSign && m1.dom().contains(x) ==> action_map(row@)[x] == m1[x]);
    proof {
        let m2 = action_map(row@);
        let want = lalr_action_row(g@, data, group_of@, sm, k as int);
        assert forall|x: SpecLetter| m2.dom().contains(x) <==> want.dom().contains(x) by {
            if x == SpecLetter::EndSign {
                assert(action_keys(g@, x));
            }
            if want.dom().contains(x) && x != SpecLetter::EndSign {
                if shifts1(mset, x) || reduces1(mset, x) {
                    assert(base.dom().contains(x));
                } else {
                    assert(g@.terminals.contains(x));
                }
                assert(m1.dom().contains(x));
            }
        }
        assert forall|x: SpecLetter| m2.dom().contains(x) implies m2[x] == want[x] by {
            if x != SpecLetter::EndSign {
                assert(m1.dom().contains(x));
                assert(m2[x] == m1[x]);
            }
        }
        assert(m2 =~= want);
    }
    let ghost gbase = goto_map(grow@);
    for t in 0..g.non_terminals.len()
        invariant
            forall|x: SpecLetter| gbase.dom().contains(x) <==> pends1(mset, x),
            forall|x: SpecLetter| gbase.dom().contains(x) ==> gbase[x] == GotoTableItem::Step(lalr_target(data, group_of@, sm[k as int][0], x)),
            goto_map(grow@) == Map::new(
                |x: SpecLetter| gbase.dom().contains(x) || g@.non_terminals.take(t as int).contains(x),
                |x: SpecLetter| lalr_goto_row(g@, data, group_of@, sm, k as int)[x],
            ),
            mset == merged(data.sets(), sm, k as int),
    {
        let nt = &g.non_terminals[t];
        assert(nt@ == g@.non_terminals[t as int]);
        proof {
            broadcast use vstd::seq_lib::lemma_seq_contains_after_push;
            assert(g@.non_terminals.take(t + 1) =~= g@.non_terminals.take(t as int).push(nt@));
        }
        if goto_get(&grow, nt).is_none() {
            assert(!pends1(mset, nt@));
            assert(g@.non_terminals.contains(nt@));
            assert(lalr_goto_row(g@, data, group_of@, sm, k as int)[nt@] == GotoTableItem::Error);
            goto_put(&mut grow, nt.clone(), GotoTableItem::Error);
        }
        assert(goto_map(grow@) =~= Map::new(
            |x: SpecLetter| gbase.dom().contains(x) || g@.non_terminals.take(t + 1).contains(x),
            |x: SpecLetter| lalr_goto_row(g@, data, group_of@, sm, k as int)[x],
        ));
    }
    assert(g@.non_terminals.take(g@.non_terminals.len() as int) =~= g@.non_terminals);
    assert(goto_map(grow@) =~= lalr_goto_row(g@, data, group_of@, sm, k as int));
    (grow, row)
}

/// The LALR(1) table of the LR(1) family `data` of `g`, whose states are free of
/// shift-reduce conflicts.
pub fn lalr_table_from_family(g: &Grammar, data: &LR1ItemSetFamily) -> (res: Result<LALRTable, String>)
    requires
        g@.wf(),
        exists|m: Seq<(Letter, Vec<Letter>)>| data.of_grammar(g@, m),
        forall|s: int| 0 <= s < data.sets().len() ==> #[trigger] sr_free(data.sets()[s]),
    ensures
        exists|group_of: Seq<usize>, sm: Seq<Seq<usize>>|
            grouping_ok(data.sets(), group_of, sm) && match res {
                Ok(t) => lalr_ok(data.sets(), sm) && lalr_table_of(&t, g@, data, group_of, sm),
                Err(e) => !lalr_ok(data.sets(), sm) && e@ == "not an LALR(1) grammar"@,
            },
{
    let ghost m = choose|m: Seq<(Letter, Vec<Letter>)>| data.of_grammar(g@, m);
    let (group_of, state_map) = group_states(data);
    let ghost sm = sm_view(state_map@);
    if !is_lalr1_grammar_helper(data, &group_of, &state_map) {
        assert(data.of_grammar(g@, m) && grouping_ok(data.sets(), group_of@, sm));
        return Err(String::from_str("not an LALR(1) grammar"));
    }
    let mut goto: Vec<Vec<(Letter, GotoTableItem)>> = Vec::new();
    let mut action: Vec<Vec<(Letter, ActionTableItem)>> = Vec::new();
    for k in 0..state_map.len()
        invariant
            g@.wf(),
            data.of_grammar(g@, m),
            sm == sm_view(state_map@),
            grouping_ok(data.sets(), group_of@, sm),
            lalr_ok(data.sets(), sm),
            forall|s: int| 0 <= s < data.sets().len() ==> #[trigger] sr_free(data.sets()[s]),
            goto@.len() == k,
            action@.len() == k,
            forall|j: int| 0 <= j < k ==> goto_map(#[trigger] goto@[j]@) == lalr_goto_row(g@, data, group_of@, sm, j),
            forall|j: int| 0 <= j < k ==> action_map(#[trigger] action@[j]@) == lalr_action_row(g@, data, group_of@, sm, j),
    {
        let (gr, ar) = lalr_rows_of(g, data, &group_of, &state_map, k, Ghost(m));
        goto.push(gr);
        action.push(ar);
    }
    let t = LALRTable { goto, action, state_map };
    assert(forall|k: int| 0 <= k < sm.len() ==> #[trigger] t.goto_maps()[k] == goto_map(t.goto@[k]@));
    assert(forall|k: int| 0 <= k < sm.len() ==> #[trigger] t.action_maps()[k] == action_map(t.action@[k]@));
    assert(lalr_table_of(&t, g@, data, group_of@, sm));
    Ok(t)
}

/// The LALR(1) table of `g`: the LR(1) states of equal cores merged; an error if that
/// leaves a conflict. The LR(1) states must be free of shift-reduce conflicts.
pub fn lalr_table_from_grammar_with_seed(g: &Grammar, seed: u64) -> (res: Result<LALRTable, String>)
    requires
        g@.wf(),
        node_count(g@) + edge_budget(g@.rules) + 1 < i32::MAX,
        lr1_sr_free(g@),
    ensures
        exists|f: LR1ItemSetFamily, ff: FirstFollowSet, group_of: Seq<usize>, sm: Seq<Seq<usize>>|
            ff.of_grammar(g@) && f.of_grammar(g@, ff.first_set@) && grouping_ok(f.sets(), group_of, sm) && match res {
                Ok(t) => lalr_ok(f.sets(), sm) && lalr_table_of(&t, g@, &f, group_of, sm),
                Err(e) => !lalr_ok(f.sets(), sm) && e@ == "not an LALR(1) grammar"@,
            },
{
    let data = LR1ItemSetFamily::from_grammar_with_seed(g, seed);
    let ghost ff = choose|ff: FirstFollowSet| ff.of_grammar(g@) && data.of_grammar(g@, ff.first_set@);
    let ghost m = ff.first_set@;
    proof {
        assert forall|s: int| 0 <= s < data.sets().len() implies #[trigger] sr_free(data.sets()[s]) by {
            assert(ff.of_grammar(g@) && data.of_grammar(g@, ff.first_set@));
        }
    }
    let r = lalr_table_from_family(g, &data);
    assert(ff.of_grammar(g@) && data.of_grammar(g@, ff.first_set@));
    r
}

/// Whether the items of `items` are free of shift-reduce conflicts.
fn sr_check(items: &Vec<LR1Item>) -> (res: bool)
    ensures
        res == sr_free(items1_view(items@).to_set()),
{
    let ghost v = items1_view(items@);
    for i in 0..items.len()
        invariant
            v == items1_view(items@),
            forall|a: int, b: int| 0 <= a < i && 0 <= b < v.len() && v[a].y.len() == 0 && v[b].y.len() > 0 && v[b].y[0] is Terminal ==> v[b].y[0] != v[a].expected,
    {
        assert(items@[i as int]@ == v[i as int]);
        if items[i].y.len() == 0 {
            for j in 0..items.len()
                invariant
                    v == items1_view(items@),
                    0 <= i < v.len(),
                    v[i as int].y.len() == 0,
                    forall|a: int, b: int| 0 <= a < i && 0 <= b < v.len() && v[a].y.len() == 0 && v[b].y.len() > 0 && v[b].y[0] is Terminal ==> v[b].y[0] != v[a].expected,
                    forall|b: int| 0 <= b < j && v[b].y.len() > 0 && v[b].y[0] is Terminal ==> v[b].y[0] != v[i as int].expected,
            {
                assert(items@[j as int]@ == v[j as int]);
                if items[j].y.len() > 0 && items[j].y[0].is_terminal() && items[j].y[0] == items[i].expected {
                    proof {
                        assert(items@[j as int].y@[0]@ == v[j as int].y[0]);
                        assert(v.to_set().contains(v[i as int]) && v.to_set().contains(v[j as int]));
                    }
                    return false;
                }
                proof {
                    if v[j as int].y.len() > 0 {
                        assert(items@[j as int].y@[0]@ == v[j as int].y[0]);
                    }
                }
            }
        }
    }
    proof {
        assert forall|a: SpecItem1, b: SpecItem1| v.to_set().contains(a) && v.to_set().contains(b) && a.y.len() == 0 && b.y.len() > 0 && b.y[0] is Terminal implies b.y[0] != a.expected by {
            let ia = choose|ia: int| 0 <= ia < v.len() && v[ia] == a;
            let ib = choose|ib: int| 0 <= ib < v.len() && v[ib] == b;
        }
    }
    true
}

/// Whether every state of the family is free of shift-reduce conflicts.
fn family_sr_free(data: &LR1ItemSetFamily) -> (res: bool)
    ensures
        res == forall|s: int| 0 <= s < data.sets().len() ==> #[trigger] sr_free(data.sets()[s]),
{
    for s in 0..data.item_sets.len()
        invariant
            forall|t: int| 0 <= t < s ==> #[trigger] sr_free(data.sets()[t]),
    {
        assert(data.sets()[s as int] == items1_view(data.item_sets@[s as int].items@).to_set());
        if !sr_check(&data.item_sets[s].items) {
            return false;
        }
    }
    true
}

/// The LALR(1) table of `g` where its LR(1) states are free of shift-reduce conflicts,
/// `None` where they are not (merging states is meant for such grammars only).
pub fn lalr_table_checked_with_seed(g: &Grammar, seed: u64) -> (res: Option<Result<LALRTable, String>>)
    requires
        g@.wf(),
        node_count(g@) + edge_budget(g@.rules) + 1 < i32::MAX,
    ensures
        exists|f: LR1ItemSetFamily, ff: FirstFollowSet|
            ff.of_grammar(g@) && f.of_grammar(g@, ff.first_set@) && match res {
                None => !(forall|s: int| 0 <= s < f.sets().len() ==> #[trigger] sr_free(f.sets()[s])),
                Some(r) => exists|group_of: Seq<usize>, sm: Seq<Seq<usize>>| grouping_ok(f.sets(), group_of, sm) && match r {
                    Ok(t) => lalr_ok(f.sets(), sm) && lalr_table_of(&t, g@, &f, group_of, sm),
                    Err(e) => !lalr_ok(f.sets(), sm) && e@ == "not an LALR(1) grammar"@,
                },
            },
{
    let data = LR1ItemSetFamily::from_grammar_with_seed(g, seed);
    let ghost ff = choose|ff: FirstFollowSet| ff.of_grammar(g@) && data.of_grammar(g@, ff.first_set@);
    let ghost m = ff.first_set@;
    if !family_sr_free(&data) {
        assert(ff.of_grammar(g@) && data.of_grammar(g@, ff.first_set@));
        return None;
    }
    let r = lalr_table_from_family(g, &data);
    assert(ff.of_grammar(g@) && data.of_grammar(g@, ff.first_set@));
    Some(r)
}

/// Whether `g` is LALR(1) where its LR(1) states are free of shift-reduce conflicts,
/// `None` where they are not.
pub fn is_lalr1_checked(g: &Grammar) -> (res: Option<bool>)
    requires
        g@.wf(),
        node_count(g@) + edge_budget(g@.rules) + 1 < i32::MAX,
    ensures
        exists|f: LR1ItemSetFamily, ff: FirstFollowSet|
            ff.of_grammar(g@) && f.of_grammar(g@, ff.first_set@) && match res {
                None => !(forall|s: int| 0 <= s < f.sets().len() ==> #[trigger] sr_free(f.sets()[s])),
                Some(b) => exists|group_of: Seq<usize>, sm: Seq<Seq<usize>>| grouping_ok(f.sets(), group_of, sm) && b == lalr_ok(f.sets(), sm),
            },
{
    let data = LR1ItemSetFamily::from_grammar(g);
    let ghost ff = choose|ff: FirstFollowSet| ff.of_grammar(g@) && data.of_grammar(g@, ff.first_set@);
    let ghost m = ff.first_set@;
    if !family_sr_free(&data) {
        assert(ff.of_grammar(g@) && data.of_grammar(g@, ff.first_set@));
        return None;
    }
    let (group_of, state_map) = group_states(&data);
    let res = is_lalr1_grammar_helper(&data, &group_of, &state_map);
    assert(ff.of_grammar(g@) && data.of_grammar(g@, ff.first_set@) && grouping_ok(data.sets(), group_of@, sm_view(state_map@)));
    Some(res)
}

/// The LALR(1) table built with seed 0.
pub fn lalr_table_from_grammar(g: &Grammar) -> (res: Result<LALRTable, String>)
    requires
        g@.wf(),
        node_count(g@) + edge_budget(g@.rules) + 1 < i32::MAX,
        lr1_sr_free(g@),
    ensures
        exists|f: LR1ItemSetFamily, ff: FirstFollowSet, group_of: Seq<usize>, sm: Seq<Seq<usize>>|
            ff.of_grammar(g@) && f.of_grammar(g@, ff.first_set@) && grouping_ok(f.sets(), group_of, sm) && match res {
                Ok(t) => lalr_ok(f.sets(), sm) && lalr_table_of(&t, g@, &f, group_of, sm),
                Err(e) => !lalr_ok(f.sets(), sm) && e@ == "not an LALR(1) grammar"@,
            },
{
    lalr_table_from_grammar_with_seed(g, 0)
}

/// The items of the states of `sets` whose cores are `c`.
spec fn core_union(sets: Seq<Set<SpecItem1>>, c: Set<SpecItem0>) -> Set<SpecItem1> {
    Set::new(|it: SpecItem1| exists|s: int| 0 <= s < sets.len() && core_set(sets[s]) == c && #[trigger] sets[s].contains(it))
}

/// A merged state holds the items of all the states with its core.
proof fn lemma_merged_core_union(sets: Seq<Set<SpecItem1>>, group_of: Seq<usize>, sm: Seq<Seq<usize>>, k: int, s0: int)
    requires
        grouping_ok(sets, group_of, sm),
        sets.len() <= usize::MAX,
        0 <= s0 < sets.len(),
        group_of[s0] == k,
    ensures
        merged(sets, sm, k) == core_union(sets, core_set(sets[s0])),
{
    let c = core_set(sets[s0]);
    assert forall|it: SpecItem1| merged(sets, sm, k).contains(it) <==> core_union(sets, c).contains(it) by {
        if merged(sets, sm, k).contains(it) {
            let i = choose|i: int| 0 <= i < sm[k].len() && #[trigger] sets[sm[k][i] as int].contains(it);
            let s = sm[k][i] as int;
            assert(group_of[s] == k);
            assert(core_set(sets[s]) == core_set(sets[s0]));
        }
        if core_union(sets, c).contains(it) {
            let s = choose|s: int| 0 <= s < sets.len() && core_set(sets[s]) == c && #[trigger] sets[s].contains(it);
            assert(core_set(sets[s]) == core_set(sets[s0]));
            assert(group_of[s] == group_of[s0]);
            assert(sm[group_of[s] as int].contains(s as usize));
            let i = choose|i: int| 0 <= i < sm[k].len() && sm[k][i] == s as usize;
            assert(sets[sm[k][i] as int].contains(it));
        }
    }
    assert(merged(sets, sm, k) =~= core_union(sets, c));
}

/// Sequences holding the same sets merge alike.
proof fn lemma_core_union_same(a: Seq<Set<SpecItem1>>, b: Seq<Set<SpecItem1>>, c: Set<SpecItem0>)
    requires
        a.to_set() == b.to_set(),
    ensures
        core_union(a, c) == core_union(b, c),
{
    assert forall|it: SpecItem1| core_union(a, c).contains(it) implies core_union(b, c).contains(it) by {
        let s = choose|s: int| 0 <= s < a.len() && core_set(a[s]) == c && #[trigger] a[s].contains(it);
        assert(a.to_set().contains(a[s]));
        let t = choose|t: int| 0 <= t < b.len() && b[t] == a[s];
        assert(b[t].contains(it));
    }
    assert forall|it: SpecItem1| core_union(b, c).contains(it) implies core_union(a, c).contains(it) by {
        let t = choose|t: int| 0 <= t < b.len() && core_set(b[t]) == c && #[trigger] b[t].contains(it);
        assert(b.to_set().contains(b[t]));
        let s = choose|s: int| 0 <= s < a.len() && a[s] == b[t];
        assert(a[s].contains(it));
    }
    assert(core_union(a, c) =~= core_union(b, c));
}

/// Merging the states of equal cores decides alike for sequences holding the same sets.
proof fn lemma_lalr_ok_transfer(a: Seq<Set<SpecItem1>>, ga: Seq<usize>, sa: Seq<Seq<usize>>, b: Seq<Set<SpecItem1>>, gb: Seq<usize>, sb: Seq<Seq<usize>>)
    requires
        a.to_set() == b.to_set(),
        a.len() <= usize::MAX,
        b.len() <= usize::MAX,
        grouping_ok(a, ga, sa),
        grouping_ok(b, gb, sb),
        lalr_ok(a, sa),
    ensures
        lalr_ok(b, sb),
{
    assert forall|k: int| 0 <= k < sb.len() implies #[trigger] rr_free(merged(b, sb, k)) by {
        let t0 = sb[k][0] as int;
        assert(gb[t0] == k);
        assert(b.to_set().contains(b[t0]));
        let s0 = choose|s0: int| 0 <= s0 < a.len() && a[s0] == b[t0];
        let ka = ga[s0] as int;
        lemma_merged_core_union(a, ga, sa, ka, s0);
        lemma_merged_core_union(b, gb, sb, k, t0);
        lemma_core_union_same(a, b, core_set(a[s0]));
        assert(rr_free(merged(a, sa, ka)));
    }
}

/// Whether a grammar is LALR(1) does not depend on how its LR(1) family was built (the
/// seed, the FIRST table) nor on how the merged states are numbered: two families of `g`
/// are both free of shift-reduce conflicts or both not, and merging the states of equal
/// cores leaves both free of conflicts or neither. So `is_lalr1_checked` answers
/// `Some(true)` exactly when `lalr_table_checked_with_seed` builds a table, whatever the seed.
pub proof fn law_lalr1_class_unique(
    g: SpecGrammar,
    ff1: &FirstFollowSet,
    ff2: &FirstFollowSet,
    f1: &LR1ItemSetFamily,
    f2: &LR1ItemSetFamily,
    g1: Seq<usize>,
    sm1: Seq<Seq<usize>>,
    g2: Seq<usize>,
    sm2: Seq<Seq<usize>>,
)
    requires
        g.wf(),
        ff1.of_grammar(g),
        ff2.of_grammar(g),
        f1.of_grammar(g, ff1.first_set@),
        f2.of_grammar(g, ff2.first_set@),
        grouping_ok(f1.sets(), g1, sm1),
        grouping_ok(f2.sets(), g2, sm2),
    ensures
        (forall|s: int| 0 <= s < f1.sets().len() ==> #[trigger] sr_free(f1.sets()[s]))
            == (forall|s: int| 0 <= s < f2.sets().len() ==> #[trigger] sr_free(f2.sets()[s])),
        lalr_ok(f1.sets(), sm1) == lalr_ok(f2.sets(), sm2),
{
    law_lr1_class_unique(g, ff1, ff2, f1, f2);
    let a = f1.sets();
    let b = f2.sets();
    assert(a.len() == f1.item_sets.len());
    assert(b.len() == f2.item_sets.len());
    if lalr_ok(a, sm1) {
        lemma_lalr_ok_transfer(a, g1, sm1, b, g2, sm2);
    }
    if lalr_ok(b, sm2) {
        lemma_lalr_ok_transfer(b, g2, sm2, a, g1, sm1);
    }
    if forall|s: int| 0 <= s < a.len() ==> #[trigger] sr_free(a[s]) {
        assert forall|s: int| 0 <= s < b.len() implies #[trigger] sr_free(b[s]) by {
            assert(b.to_set().contains(b[s]));
            let t = choose|t: int| 0 <= t < a.len() && a[t] == b[s];
            assert(sr_free(a[t]));
        }
    }
    if forall|s: int| 0 <= s < b.len() ==> #[trigger] sr_free(b[s]) {
        assert forall|s: int| 0 <= s < a.len() implies #[trigger] sr_free(a[s]) by {
            assert(a.to_set().contains(a[s]));
            let t = choose|t: int| 0 <= t < b.len() && b[t] == a[s];
            assert(sr_free(b[t]));
        }
    }
}

/// Every LALR(1) grammar is LR(1): when no state of the LR(1) family has a shift-reduce
/// conflict and the states merged by equal cores have no reduce-reduce conflict, no state
/// of the family has a conflict of either kind, since each lies within its merged state.
pub proof fn law_lalr1_is_lr1(g: SpecGrammar, ff: &FirstFollowSet, f: &LR1ItemSetFamily, group_of: Seq<usize>, sm: Seq<Seq<usize>>)
    requires
        g.wf(),
        ff.of_grammar(g),
        f.of_grammar(g, ff.first_set@),
        forall|s: int| 0 <= s < f.sets().len() ==> #[trigger] sr_free(f.sets()[s]),
        grouping_ok(f.sets(), group_of, sm),
        lalr_ok(f.sets(), sm),
    ensures
        lr1_family_ok(f.sets()),
{
    let sets = f.sets();
    assert(sets.len() == f.item_sets@.len());
    assert(f.item_sets.len() == f.item_sets@.len());
    assert forall|s: int| 0 <= s < sets.len() implies #[trigger] lr1_set_ok(sets[s]) by {
        assert(sr_free(sets[s]));
        assert(s < f.item_sets@.len());
        let k = group_of[s] as int;
        assert(state_map_has(sm, k, s));
        let i = choose|i: int| 0 <= i < sm[k].len() && sm[k][i] == s as usize;
        assert(sm[k][i] as int == s);
        assert forall|it: SpecItem1| sets[s].contains(it) implies merged(sets, sm, k).contains(it) by {
            assert(sets[sm[k][i] as int].contains(it));
        }
        assert(rr_free(merged(sets, sm, k)));
    }
}

/// `state_map[k]` lists state `s`.
spec fn state_map_has(sm: Seq<Seq<usize>>, k: int, s: int) -> bool {
    sm[k].contains(s as usize)
}


/// In the LALR(1) table, `Accept` stands only in the column of the end marker, in a
/// merged state that holds an item of the start symbol ready to reduce with `#` expected.
pub proof fn law_lalr_accept_only_at_end(t: &LALRTable, g: SpecGrammar, f: &LR1ItemSetFamily, group_of: Seq<usize>, sm: Seq<Seq<usize>>)
    requires
        lalr_table_of(t, g, f, group_of, sm),
    ensures
        forall|k: int, x: SpecLetter|
            0 <= k < sm.len() && #[trigger] t.action_maps()[k].dom().contains(x) && t.action_maps()[k][x] == SpecAction::Accept
                ==> x == SpecLetter::EndSign && reduces1(merged(f.sets(), sm, k), x) && reducer1(merged(f.sets(), sm, k), x).left == g.origin,
{
    assert forall|k: int, x: SpecLetter|
        0 <= k < sm.len() && #[trigger] t.action_maps()[k].dom().contains(x) && t.action_maps()[k][x] == SpecAction::Accept
            implies x == SpecLetter::EndSign && reduces1(merged(f.sets(), sm, k), x) && reducer1(merged(f.sets(), sm, k), x).left == g.origin by {
        assert(t.action_maps()[k] == lalr_action_row(g, f, group_of, sm, k));
    }
}

/// Every state that the LALR(1) table steps or goes to is a merged state: its number is
/// below the number of rows, and where the LR(1) GO function takes the first state of
/// the group over `x` to the LR(1) state `u`, it is the merged state of `u`, whose first
/// state has the core of `u`.
pub proof fn law_lalr_targets_merged(t: &LALRTable, g: SpecGrammar, f: &LR1ItemSetFamily, group_of: Seq<usize>, sm: Seq<Seq<usize>>)
    requires
        lalr_table_of(t, g, f, group_of, sm),
        grouping_ok(f.sets(), group_of, sm),
    ensures
        forall|k: int, x: SpecLetter, n: usize|
            0 <= k < sm.len() && #[trigger] t.action_maps()[k].dom().contains(x) && t.action_maps()[k][x] == SpecAction::Step(n) ==> {
                &&& forall|u: usize| go_row_map1(f.go_function@[sm[k][0] as int]@)[x] == GoFunctionItem::Step(u) && u < f.sets().len()
                    ==> n < sm.len() && group_of[u as int] == n && #[trigger] core_set(f.sets()[sm[n as int][0] as int]) == core_set(f.sets()[u as int])
            },
        forall|k: int, x: SpecLetter, n: usize|
            0 <= k < sm.len() && #[trigger] t.goto_maps()[k].dom().contains(x) && t.goto_maps()[k][x] == GotoTableItem::Step(n) ==> {
                &&& forall|u: usize| go_row_map1(f.go_function@[sm[k][0] as int]@)[x] == GoFunctionItem::Step(u) && u < f.sets().len()
                    ==> n < sm.len() && group_of[u as int] == n && #[trigger] core_set(f.sets()[sm[n as int][0] as int]) == core_set(f.sets()[u as int])
            },
{
    let sets = f.sets();
    assert forall|k: int, x: SpecLetter, n: usize|
        0 <= k < sm.len() && #[trigger] t.action_maps()[k].dom().contains(x) && t.action_maps()[k][x] == SpecAction::Step(n) implies {
            &&& forall|u: usize| go_row_map1(f.go_function@[sm[k][0] as int]@)[x] == GoFunctionItem::Step(u) && u < f.sets().len()
                ==> n < sm.len() && group_of[u as int] == n && #[trigger] core_set(f.sets()[sm[n as int][0] as int]) == core_set(f.sets()[u as int])
        } by {
        assert(t.action_maps()[k] == lalr_action_row(g, f, group_of, sm, k));
        lemma_target_merged(f, group_of, sm, k, x, n);
    }
    assert forall|k: int, x: SpecLetter, n: usize|
        0 <= k < sm.len() && #[trigger] t.goto_maps()[k].dom().contains(x) && t.goto_maps()[k][x] == GotoTableItem::Step(n) implies {
            &&& forall|u: usize| go_row_map1(f.go_function@[sm[k][0] as int]@)[x] == GoFunctionItem::Step(u) && u < f.sets().len()
                ==> n < sm.len() && group_of[u as int] == n && #[trigger] core_set(f.sets()[sm[n as int][0] as int]) == core_set(f.sets()[u as int])
        } by {
        assert(t.goto_maps()[k] == lalr_goto_row(g, f, group_of, sm, k));
        lemma_target_merged(f, group_of, sm, k, x, n);
    }
}

proof fn lemma_target_merged(f: &LR1ItemSetFamily, group_of: Seq<usize>, sm: Seq<Seq<usize>>, k: int, x: SpecLetter, n: usize)
    requires
        grouping_ok(f.sets(), group_of, sm),
        0 <= k < sm.len(),
        n == lalr_target(f, group_of, sm[k][0], x),
    ensures
        forall|u: usize| go_row_map1(f.go_function@[sm[k][0] as int]@)[x] == GoFunctionItem::Step(u) && u < f.sets().len()
            ==> n < sm.len() && group_of[u as int] == n && #[trigger] core_set(f.sets()[sm[n as int][0] as int]) == core_set(f.sets()[u as int]),
{
    let sets = f.sets();
    assert(sm[k].len() > 0);
    match go_row_map1(f.go_function@[sm[k][0] as int]@)[x] {
        GoFunctionItem::Step(u) => {
            if u < sets.len() {
                assert(group_of[u as int] < sm.len());
                assert(sm[n as int].len() > 0);
                let r = sm[n as int][0];
                assert(r < sets.len() && group_of[r as int] == n);
                assert(group_of[r as int] == group_of[u as int]);
                assert(core_set(sets[r as int]) == core_set(sets[u as int]));
            }
        },
        GoFunctionItem::Error => {},
    }
}
} // verus!

use vstd::prelude::*;
use crate::grammar::letter::{Letter, SpecLetter, seq_view};
use crate::grammar::{Grammar, SpecGrammar};
use crate::first_follow_set::{FirstFollowSet, spec_follow_set, keys_of, has_entry, lookup, node_count, edge_budget};
use crate::lr_table::{LRTable, GotoTableItem, ActionTableItem, SpecAction, goto_map, action_map, action_put, action_get};
use crate::lr0::lr0_item::{LR0Item, SpecItem0, item_rule, spec_shift0};
use crate::lr0::lr0_item_set_family::{
    LR0ItemSetFamily, GoFunctionItem, go_get, go_row_map, go_entry_ok0, lemma_go_row_has, lemma_go_nonempty,
    lemma_universe_left, signs_of, family_universe0, law_family_sets_unique,
};
use crate::lr0::lr0_item_set::all_items0;
use crate::lr0::{lr_goto_row, goto_row_of, action_keys, lr0_family_ok, lr0_set_ok};

verus! {

/// An LR(0) item set without SLR(1) conflicts: the FOLLOW sets of distinct items ready
/// to reduce are disjoint, and no terminal after a dot lies in one of them.
pub open spec fn slr1_set_ok(g: SpecGrammar, s: Set<SpecItem0>) -> bool {
    &&& forall|a: SpecItem0, b: SpecItem0, x: SpecLetter|
        s.contains(a) && s.contains(b) && a != b && a.y.len() == 0 && b.y.len() == 0 && spec_follow_set(g, a.left).contains(x)
            ==> !spec_follow_set(g, b.left).contains(x)
    &&& forall|a: SpecItem0, b: SpecItem0|
        s.contains(a) && s.contains(b) && a.y.len() == 0 && b.y.len() > 0 && b.y[0] is Terminal ==> !spec_follow_set(
            g,
            a.left,
        ).contains(b.y[0])
}

/// Every set of the family is free of SLR(1) conflicts.
pub open spec fn slr1_family_ok(g: SpecGrammar, sets: Seq<Set<SpecItem0>>) -> bool {
    forall|s: int| 0 <= s < sets.len() ==> #[trigger] slr1_set_ok(g, sets[s])
}

/// Whether some item of `s` shifts `x`.
pub open spec fn shifts(s: Set<SpecItem0>, x: SpecLetter) -> bool {
    exists|b: SpecItem0| s.contains(b) && b.y.len() > 0 && b.y[0] is Terminal && b.y[0] == x
}

/// Whether some item of `s` reduces on `x`.
pub open spec fn reduces_on(g: SpecGrammar, s: Set<SpecItem0>, x: SpecLetter) -> bool {
    exists|a: SpecItem0| s.contains(a) && a.y.len() == 0 && spec_follow_set(g, a.left).contains(x)
}

/// The item of `s` that reduces on `x`.
pub open spec fn reducer(g: SpecGrammar, s: Set<SpecItem0>, x: SpecLetter) -> SpecItem0 {
    choose|a: SpecItem0| s.contains(a) && a.y.len() == 0 && spec_follow_set(g, a.left).contains(x)
}

/// The SLR(1) ACTION entry of state `s` for `x`: shift by GO, accept or reduce on the
/// FOLLOW set of an item ready to reduce, else fail.
pub open spec fn slr1_entry(g: SpecGrammar, f: &LR0ItemSetFamily, s: int, x: SpecLetter) -> SpecAction {
    let set = f.sets()[s];
    if shifts(set, x) {
        match go_row_map(f.go_function@[s]@)[x] {
            GoFunctionItem::Step(t) => SpecAction::Step(t),
            GoFunctionItem::Error => SpecAction::Error,
        }
    } else if reduces_on(g, set, x) {
        let a = reducer(g, set, x);
        if a.left == g.origin {
            SpecAction::Accept
        } else {
            SpecAction::Reduce(item_rule(a.left, a.x, a.y))
        }
    } else {
        SpecAction::Error
    }
}

/// The SLR(1) ACTION row of state `s`.
pub open spec fn slr1_action_row(g: SpecGrammar, f: &LR0ItemSetFamily, s: int) -> Map<SpecLetter, SpecAction> {
    Map::new(
        |x: SpecLetter| action_keys(g, x) || shifts(f.sets()[s], x) || reduces_on(g, f.sets()[s], x),
        |x: SpecLetter| slr1_entry(g, f, s, x),
    )
}

/// The SLR(1) table of a family.
pub open spec fn slr1_table_of(t: &LRTable, g: SpecGrammar, f: &LR0ItemSetFamily) -> bool {
    &&& t.goto@.len() == f.sets().len()
    &&& t.action@.len() == f.sets().len()
    &&& forall|s: int| 0 <= s < f.sets().len() ==> #[trigger] t.goto_maps()[s] == lr_goto_row(g, f, s)
    &&& forall|s: int| 0 <= s < f.sets().len() ==> #[trigger] t.action_maps()[s] == slr1_action_row(g, f, s)
}

/// The FOLLOW set of the non terminal `x` as the table stores it.
fn follow_of<'a>(g: &Grammar, ff: &'a FirstFollowSet, x: &Letter) -> (res: &'a Vec<Letter>)
    requires
        ff.of_grammar(g@),
        g@.non_terminals.contains(x@),
    ensures
        seq_view(res@).to_set() == spec_follow_set(g@, x@),
        seq_view(res@).no_duplicates(),
{
    proof {
        let i = choose|i: int| 0 <= i < g@.non_terminals.len() && g@.non_terminals[i] == x@;
        assert(keys_of(ff.follow_set@)[i] == x@);
        assert(ff.follow_set@[i].0@ == x@);
        assert(has_entry(ff.follow_set@, x@));
    }
    let r = lookup(&ff.follow_set, x);
    proof {
        assert(keys_of(ff.follow_set@)[r as int] == x@);
        assert(seq_view(ff.follow_set@[r as int].1@).to_set() == spec_follow_set(g@, g@.non_terminals[r as int]));
    }
    &ff.follow_set[r].1
}

/// Whether two lists of symbols share a symbol.
fn share_letter(a: &Vec<Letter>, b: &Vec<Letter>) -> (res: bool)
    ensures
        res == exists|x: SpecLetter| seq_view(a@).contains(x) && seq_view(b@).contains(x),
{
    for i in 0..a.len()
        invariant
            forall|j: int| 0 <= j < i ==> !seq_view(b@).contains(#[trigger] seq_view(a@)[j]),
    {
        assert(seq_view(a@)[i as int] == a@[i as int]@);
        if crate::grammar::letter::contains(b, &a[i]) {
            assert(seq_view(a@).contains(a@[i as int]@));
            return true;
        }
    }
    assert forall|x: SpecLetter| seq_view(a@).contains(x) implies !seq_view(b@).contains(x) by {
        let j = choose|j: int| 0 <= j < seq_view(a@).len() && seq_view(a@)[j] == x;
    }
    false
}

/// Whether the set `v` (each item once) has no SLR(1) conflict.
fn slr1_items_ok(g: &Grammar, items: &Vec<LR0Item>, ff: &FirstFollowSet, Ghost(v): Ghost<Seq<SpecItem0>>) -> (res: bool)
    requires
        g@.wf(),
        ff.of_grammar(g@),
        v.no_duplicates(),
        v.to_set().subset_of(family_universe0(g@)),
        items@.len() == v.len(),
        forall|j: int| 0 <= j < v.len() ==> (#[trigger] items@[j])@ == v[j],
    ensures
        res == slr1_set_ok(g@, v.to_set()),
{
    let ghost set = v.to_set();
    for i in 0..items.len()
        invariant
            g@.wf(),
            ff.of_grammar(g@),
            set == v.to_set(),
            v.no_duplicates(),
            set.subset_of(family_universe0(g@)),
            items@.len() == v.len(),
            forall|j: int| 0 <= j < v.len() ==> (#[trigger] items@[j])@ == v[j],
            forall|a: int, b: int, x: SpecLetter|
                0 <= a < i && 0 <= b < v.len() && a != b && v[a].y.len() == 0 && v[b].y.len() == 0 && spec_follow_set(g@, v[a].left).contains(x)
                    ==> !spec_follow_set(g@, v[b].left).contains(x),
            forall|a: int, b: int|
                0 <= a < i && 0 <= b < v.len() && v[a].y.len() == 0 && v[b].y.len() > 0 && v[b].y[0] is Terminal
                    ==> !spec_follow_set(g@, v[a].left).contains(v[b].y[0]),
    {
        assert(items@[i as int]@ == v[i as int]);
        if items[i].y.len() == 0 {
            proof {
                assert(set.contains(v[i as int]));
                lemma_universe_left(g@, v[i as int]);
            }
            let fi = follow_of(g, ff, &items[i].left);
            for j in 0..items.len()
                invariant
                    g@.wf(),
                    ff.of_grammar(g@),
                    set == v.to_set(),
                    v.no_duplicates(),
                    set.subset_of(family_universe0(g@)),
                    items@.len() == v.len(),
                    forall|j: int| 0 <= j < v.len() ==> (#[trigger] items@[j])@ == v[j],
                    0 <= i < v.len(),
                    v[i as int].y.len() == 0,
                    seq_view(fi@).to_set() == spec_follow_set(g@, v[i as int].left),
                    forall|a: int, b: int, x: SpecLetter|
                        0 <= a < i && 0 <= b < v.len() && a != b && v[a].y.len() == 0 && v[b].y.len() == 0 && spec_follow_set(g@, v[a].left).contains(x)
                            ==> !spec_follow_set(g@, v[b].left).contains(x),
                    forall|a: int, b: int|
                        0 <= a < i && 0 <= b < v.len() && v[a].y.len() == 0 && v[b].y.len() > 0 && v[b].y[0] is Terminal
                            ==> !spec_follow_set(g@, v[a].left).contains(v[b].y[0]),
                    forall|b: int, x: SpecLetter|
                        0 <= b < j && b != i && v[b].y.len() == 0 && spec_follow_set(g@, v[i as int].left).contains(x)
                            ==> !spec_follow_set(g@, v[b].left).contains(x),
                    forall|b: int|
                        0 <= b < j && v[b].y.len() > 0 && v[b].y[0] is Terminal
                            ==> !spec_follow_set(g@, v[i as int].left).contains(v[b].y[0]),
            {
                assert(items@[j as int]@ == v[j as int]);
                if j != i {
                    if items[j].y.len() == 0 {
                        proof {
                            assert(set.contains(v[j as int]));
                            lemma_universe_left(g@, v[j as int]);
                        }
                        let fj = follow_of(g, ff, &items[j].left);
                        if share_letter(fi, fj) {
                            proof {
                                let x = choose|x: SpecLetter| seq_view(fi@).contains(x) && seq_view(fj@).contains(x);
                                assert(seq_view(fi@).to_set().contains(x));
                                assert(seq_view(fj@).to_set().contains(x));
                                assert(v[i as int] != v[j as int]);
                                assert(set.contains(v[i as int]) && set.contains(v[j as int]));
                            }
                            return false;
                        }
                        proof {
                            assert forall|x: SpecLetter| spec_follow_set(g@, v[i as int].left).contains(x) implies !spec_follow_set(g@, v[j as int].left).contains(x) by {
                                assert(seq_view(fi@).to_set().contains(x));
                                if spec_follow_set(g@, v[j as int].left).contains(x) {
                                    assert(seq_view(fj@).to_set().contains(x));
                                }
                            }
                        }
                    } else {
                        assert(items@[j as int].y@[0]@ == v[j as int].y[0]);
                        if items[j].y[0].is_terminal() {
                            if crate::grammar::letter::contains(fi, &items[j].y[0]) {
                                proof {
                                    assert(seq_view(fi@).to_set().contains(v[j as int].y[0]));
                                    assert(set.contains(v[i as int]) && set.contains(v[j as int]));
                                }
                                return false;
                            }
                            proof {
                                if spec_follow_set(g@, v[i as int].left).contains(v[j as int].y[0]) {
                                    assert(seq_view(fi@).to_set().contains(v[j as int].y[0]));
                                }
                            }
                        }
                    }
                }
            }
        }
    }
    proof {
        assert forall|a: SpecItem0, b: SpecItem0, x: SpecLetter|
            set.contains(a) && set.contains(b) && a != b && a.y.len() == 0 && b.y.len() == 0 && spec_follow_set(g@, a.left).contains(x)
                implies !spec_follow_set(g@, b.left).contains(x) by {
            let ia = choose|ia: int| 0 <= ia < v.len() && v[ia] == a;
            let ib = choose|ib: int| 0 <= ib < v.len() && v[ib] == b;
        }
        assert forall|a: SpecItem0, b: SpecItem0|
            set.contains(a) && set.contains(b) && a.y.len() == 0 && b.y.len() > 0 && b.y[0] is Terminal
                implies !spec_follow_set(g@, a.left).contains(b.y[0]) by {
            let ia = choose|ia: int| 0 <= ia < v.len() && v[ia] == a;
            let ib = choose|ib: int| 0 <= ib < v.len() && v[ib] == b;
        }
    }
    true
}

/// Whether no set of the family has an SLR(1) conflict.
pub fn is_slr1_grammar_helper(g: &Grammar, data: &LR0ItemSetFamily, ff: &FirstFollowSet) -> (res: bool)
    requires
        g@.wf(),
        data.of_grammar(g@),
        ff.of_grammar(g@),
    ensures
        res == slr1_family_ok(g@, data.sets()),
{
    for s in 0..data.item_sets.len()
        invariant
            g@.wf(),
            data.of_grammar(g@),
            ff.of_grammar(g@),
            forall|t: int| 0 <= t < s ==> #[trigger] slr1_set_ok(g@, data.sets()[t]),
    {
        let ghost v = data.item_sets@[s as int]@;
        assert(data.sets()[s as int] == v.to_set());
        if !slr1_items_ok(g, &data.item_sets[s].items, ff, Ghost(v)) {
            assert(!slr1_set_ok(g@, data.sets()[s as int]));
            return false;
        }
    }
    true
}

/// Whether item `a` writes an ACTION entry for `x`: a shift of the terminal after its
/// dot, or a reduction on its FOLLOW set.
pub open spec fn writes(g: SpecGrammar, a: SpecItem0, x: SpecLetter) -> bool {
    (a.y.len() > 0 && a.y[0] is Terminal && a.y[0] == x) || (a.y.len() == 0 && spec_follow_set(g, a.left).contains(x))
}

/// The start symbol has no empty production (the item kinds are then defined on
/// every item of the family).
pub open spec fn origin_not_empty(g: SpecGrammar) -> bool {
    forall|k: int| 0 <= k < g.rules.len() && (#[trigger] g.rules[k]).left == g.origin ==> g.rules[k].right != seq![SpecLetter::Empty]
}

/// The SLR(1) ACTION row of state `s`.
fn slr1_action_row_of(g: &Grammar, data: &LR0ItemSetFamily, ff: &FirstFollowSet, s: usize) -> (res: Vec<(Letter, ActionTableItem)>)
    requires
        g@.wf(),
        data.of_grammar(g@),
        ff.of_grammar(g@),
        s < data.sets().len(),
        slr1_family_ok(g@, data.sets()),
    ensures
        action_map(res@) == slr1_action_row(g@, data, s as int),
{
    let items = &data.item_sets[s].items;
    let ghost v = data.item_sets@[s as int]@;
    let ghost set = v.to_set();
    let ghost w = all_items0(g@.rules);
    assert(data.sets()[s as int] == set);
    assert(slr1_set_ok(g@, set));
    let mut row: Vec<(Letter, ActionTableItem)> = Vec::new();
    for i in 0..items.len()
        invariant
            g@.wf(),
            data.of_grammar(g@),
            ff.of_grammar(g@),
            s < data.sets().len(),
            v == data.item_sets@[s as int]@,
            set == v.to_set(),
            data.sets()[s as int] == set,
            slr1_set_ok(g@, set),
            set.subset_of(family_universe0(g@)),
            w == all_items0(g@.rules),
            items@.len() == v.len(),
            forall|j: int| 0 <= j < v.len() ==> (#[trigger] items@[j])@ == v[j],
            forall|x: SpecLetter| action_map(row@).dom().contains(x) <==> exists|j: int| 0 <= j < i && #[trigger] writes(g@, v[j], x),
            forall|x: SpecLetter| action_map(row@).dom().contains(x) ==> action_map(row@)[x] == slr1_entry(g@, data, s as int, x),
    {
        assert(items@[i as int]@ == v[i as int]);
        let item = &items[i];
        let ghost a = v[i as int];
        assert(set.contains(a));
        if item.y.len() > 0 && item.y[0].is_terminal() {
            assert(item.y@[0]@ == a.y[0]);
            let x = &item.y[0];
            proof {
                assert(signs_of(g@).contains(a.y[0])) by {
                    crate::lr0::lr0_item_set_family::lemma_universe_symbol(g@, a);
                }
                lemma_go_row_has(data, g@, s as int, x@);
                lemma_go_nonempty(set, w, a);
                assert(shifts(set, x@));
            }
            let e = match go_get(&data.go_function[s], x) {
                Some(GoFunctionItem::Step(n)) => ActionTableItem::Step(n),
                Some(GoFunctionItem::Error) => {
                    proof {
                        let k = choose|k: int| 0 <= k < data.go_function@[s as int]@.len() && data.go_function@[s as int]@[k].0@ == x@
                            && data.go_function@[s as int]@[k].1 == GoFunctionItem::Error;
                        assert(go_entry_ok0(data.sets(), w, s as int, data.go_function@[s as int]@[k].0@, data.go_function@[s as int]@[k].1));
                        assert(crate::lr0::lr0_item_set::spec_go0(set, w, x@).contains(spec_shift0(a)));
                    }
                    assert(false);
                    ActionTableItem::Error
                },
                None => {
                    assert(false);
                    ActionTableItem::Error
                },
            };
            let ghost before = row@;
            action_put(&mut row, x.clone(), e);
            proof {
                assert forall|y: SpecLetter| action_map(row@).dom().contains(y) <==> exists|j: int| 0 <= j < i + 1 && #[trigger] writes(g@, v[j], y) by {
                    if y == x@ {
                        assert(writes(g@, v[i as int], y));
                    } else if exists|j: int| 0 <= j < i + 1 && #[trigger] writes(g@, v[j], y) {
                        let j = choose|j: int| 0 <= j < i + 1 && #[trigger] writes(g@, v[j], y);
                        if j == i {
                            assert(false);
                        }
                    }
                }
            }
        } else if item.y.len() == 0 {
            proof {
                lemma_universe_left(g@, a);
            }
            let fol = follow_of(g, ff, &item.left);
            let is_origin = item.left == g.origin;
            let mut k: usize = 0;
            while k < fol.len()
                invariant
                    g@.wf(),
                    data.of_grammar(g@),
                    s < data.sets().len(),
                    data.sets()[s as int] == set,
                    set == v.to_set(),
                    slr1_set_ok(g@, set),
                    set.contains(a),
                    a == v[i as int],
                    a.y.len() == 0,
                    item@ == a,
                    is_origin == (a.left == g@.origin),
                    0 <= i < v.len(),
                    k <= fol@.len(),
                    seq_view(fol@).to_set() == spec_follow_set(g@, a.left),
                    forall|x: SpecLetter| action_map(row@).dom().contains(x) <==> (exists|j: int| 0 <= j < i && #[trigger] writes(g@, v[j], x))
                        || seq_view(fol@).take(k as int).contains(x),
                    forall|x: SpecLetter| action_map(row@).dom().contains(x) ==> action_map(row@)[x] == slr1_entry(g@, data, s as int, x),
                decreases fol@.len() - k,
            {
                let ghost x = fol@[k as int]@;
                proof {
                    assert(seq_view(fol@)[k as int] == x);
                    assert(spec_follow_set(g@, a.left).contains(x));
                    assert(!shifts(set, x)) by {
                        if shifts(set, x) {
                            let b = choose|b: SpecItem0| set.contains(b) && b.y.len() > 0 && b.y[0] is Terminal && b.y[0] == x;
                        }
                    }
                    assert(reduces_on(g@, set, x));
                    let r = reducer(g@, set, x);
                    if r != a {
                        assert(spec_follow_set(g@, r.left).contains(x));
                    }
                    assert(r == a);
                }
                let e = if is_origin {
                    ActionTableItem::Accept
                } else {
                    ActionTableItem::Reduce(item.rule())
                };
                assert(e@ == slr1_entry(g@, data, s as int, x));
                action_put(&mut row, fol[k].clone(), e);
                proof {
                    broadcast use vstd::seq_lib::lemma_seq_contains_after_push;
                    assert(seq_view(fol@).take(k + 1) =~= seq_view(fol@).take(k as int).push(x));
                }
                k = k + 1;
            }
            proof {
                assert(seq_view(fol@).take(fol@.len() as int) =~= seq_view(fol@));
                assert forall|y: SpecLetter| action_map(row@).dom().contains(y) <==> exists|j: int| 0 <= j < i + 1 && #[trigger] writes(g@, v[j], y) by {
                    if seq_view(fol@).contains(y) {
                        assert(seq_view(fol@).to_set().contains(y));
                        assert(writes(g@, v[i as int], y));
                    }
                    if exists|j: int| 0 <= j < i + 1 && #[trigger] writes(g@, v[j], y) {
                        let j = choose|j: int| 0 <= j < i + 1 && #[trigger] writes(g@, v[j], y);
                        if j == i {
                            assert(seq_view(fol@).to_set().contains(y));
                        }
                    }
                }
            }
        } else {
            proof {
                assert forall|y: SpecLetter| action_map(row@).dom().contains(y) <==> exists|j: int| 0 <= j < i + 1 && #[trigger] writes(g@, v[j], y) by {
                    if exists|j: int| 0 <= j < i + 1 && #[trigger] writes(g@, v[j], y) {
                        let j = choose|j: int| 0 <= j < i + 1 && #[trigger] writes(g@, v[j], y);
                        if j == i {
                            assert(!(item.y@[0]@ is Terminal));
                            assert(item.y@[0]@ == a.y[0]);
                        }
                    }
                }
            }
        }
    }
    proof {
        assert forall|x: SpecLetter| action_map(row@).dom().contains(x) <==> (shifts(set, x) || reduces_on(g@, set, x)) by {
            if action_map(row@).dom().contains(x) {
                let j = choose|j: int| 0 <= j < v.len() && #[trigger] writes(g@, v[j], x);
                assert(set.contains(v[j]));
            }
            if shifts(set, x) {
                let b = choose|b: SpecItem0| set.contains(b) && b.y.len() > 0 && b.y[0] is Terminal && b.y[0] == x;
                let j = choose|j: int| 0 <= j < v.len() && v[j] == b;
                assert(writes(g@, v[j], x));
            }
            if reduces_on(g@, set, x) {
                let b = choose|b: SpecItem0| set.contains(b) && b.y.len() == 0 && spec_follow_set(g@, b.left).contains(x);
                let j = choose|j: int| 0 <= j < v.len() && v[j] == b;
                assert(writes(g@, v[j], x));
            }
        }
    }
    // every terminal and the end marker without an entry fails
    let ghost base = action_map(row@);
    for k in 0..g.terminals.len()
        invariant
            g@.wf(),
            data.of_grammar(g@),
            s < data.sets().len(),
            data.sets()[s as int] == set,
            forall|x: SpecLetter| base.dom().contains(x) <==> (shifts(set, x) || reduces_on(g@, set, x)),
            forall|x: SpecLetter| base.dom().contains(x) ==> base[x] == slr1_entry(g@, data, s as int, x),
            action_map(row@) == Map::new(
                |x: SpecLetter| base.dom().contains(x) || g@.terminals.take(k as int).contains(x),
                |x: SpecLetter| slr1_entry(g@, data, s as int, x),
            ),
    {
        let t = &g.terminals[k];
        assert(t@ == g@.terminals[k as int]);
        proof {
            broadcast use vstd::seq_lib::lemma_seq_contains_after_push;
            assert(g@.terminals.take(k + 1) =~= g@.terminals.take(k as int).push(t@));
        }
        if action_get(&row, t).is_none() {
            assert(slr1_entry(g@, data, s as int, t@) == SpecAction::Error);
            action_put(&mut row, t.clone(), ActionTableItem::Error);
        }
        assert(action_map(row@) =~= Map::new(
            |x: SpecLetter| base.dom().contains(x) || g@.terminals.take(k + 1).contains(x),
            |x: SpecLetter| slr1_entry(g@, data, s as int, x),
        ));
    }
    assert(g@.terminals.take(g@.terminals.len() as int) =~= g@.terminals);
    let ghost m1 = action_map(row@);
    assert(m1 == Map::new(
        |x: SpecLetter| base.dom().contains(x) || g@.terminals.contains(x),
        |x: SpecLetter| slr1_entry(g@, data, s as int, x),
    ));
    let end = Letter::EndSign;
    if action_get(&row, &end).is_none() {
        assert(slr1_entry(g@, data, s as int, end@) == SpecAction::Error);
        action_put(&mut row, end, ActionTableItem::Error);
        assert(action_map(row@) == m1.insert(SpecLetter::EndSign, SpecAction::Error));
    } else {
        assert(m1.dom().contains(SpecLetter::EndSign));
        assert(action_map(row@) == m1);
    }
    assert(forall|x: SpecLetter| x != SpecLetter::EndSign ==> (action_map(row@).dom().contains(x) == m1.dom().contains(x)));
    assert(forall|x: SpecLetter| x != SpecLetter::EndSign && m1.dom().contains(x) ==> action_map(row@)[x] == m1[x]);
    proof {
        let m2 = action_map(row@);
        let want = slr1_action_row(g@, data, s as int);
        assert forall|x: SpecLetter| m2.dom().contains(x) <==> want.dom().contains(x) by {
            if x == SpecLetter::EndSign {
                assert(action_keys(g@, x));
            }
            if want.dom().contains(x) && x != SpecLetter::EndSign {
                assert(action_keys(g@, x) || shifts(set, x) || reduces_on(g@, set, x));
                if shifts(set, x) || reduces_on(g@, set, x) {
                    assert(base.dom().contains(x));
                } else {
                    assert(g@.terminals.contains(x));
                }
                assert(m1.dom().contains(x));
            }
        }
        assert forall|x: SpecLetter| m2.dom().contains(x) implies m2[x] == want[x] by {
            if x != SpecLetter::EndSign {
                assert(m1.dom().contains(x));
                assert(m2[x] == m1[x]);
            }
        }
        assert(m2 =~= want);
    }
    row
}

/// Whether the grammar is SLR(1): no set of its LR(0) item set family has a conflict
/// that the FOLLOW sets cannot settle.
pub fn is_slr1_grammar(g: &Grammar) -> (res: bool)
    requires
        g@.wf(),
        node_count(g@) + edge_budget(g@.rules) + 1 < i32::MAX,
    ensures
        exists|f: LR0ItemSetFamily| f.of_grammar(g@) && res == slr1_family_ok(g@, f.sets()),
{
    let data = LR0ItemSetFamily::from_grammar(g);
    let ff = FirstFollowSet::from_grammar(g);
    let res = is_slr1_grammar_helper(g, &data, &ff);
    assert(data.of_grammar(g@) && res == slr1_family_ok(g@, data.sets()));
    res
}

/// The SLR(1) table of a family, or the message that the grammar is not SLR(1).
pub fn slr1_table_from_family(g: &Grammar, data: &LR0ItemSetFamily, ff: &FirstFollowSet) -> (res: Result<LRTable, String>)
    requires
        g@.wf(),
        data.of_grammar(g@),
        ff.of_grammar(g@),
    ensures
        match res {
            Ok(t) => slr1_family_ok(g@, data.sets()) && slr1_table_of(&t, g@, data),
            Err(e) => !slr1_family_ok(g@, data.sets()) && e@ == "not an SLR(1) grammar"@,
        },
{
    if !is_slr1_grammar_helper(g, data, ff) {
        return Err(String::from_str("not an SLR(1) grammar"));
    }
    let mut goto: Vec<Vec<(Letter, GotoTableItem)>> = Vec::new();
    let mut action: Vec<Vec<(Letter, ActionTableItem)>> = Vec::new();
    for s in 0..data.item_sets.len()
        invariant
            g@.wf(),
            data.of_grammar(g@),
            ff.of_grammar(g@),
            slr1_family_ok(g@, data.sets()),
            goto@.len() == s,
            action@.len() == s,
            forall|t: int| 0 <= t < s ==> goto_map(#[trigger] goto@[t]@) == lr_goto_row(g@, data, t),
            forall|t: int| 0 <= t < s ==> action_map(#[trigger] action@[t]@) == slr1_action_row(g@, data, t),
    {
        goto.push(goto_row_of(g, data, s));
        action.push(slr1_action_row_of(g, data, ff, s));
    }
    let t = LRTable { goto, action };
    assert(forall|s: int| 0 <= s < data.sets().len() ==> #[trigger] t.goto_maps()[s] == goto_map(t.goto@[s]@));
    assert(forall|s: int| 0 <= s < data.sets().len() ==> #[trigger] t.action_maps()[s] == action_map(t.action@[s]@));
    Ok(t)
}

/// The SLR(1) table of the grammar, built on the LR(0) item set family of `seed`, or
/// the message that the grammar is not SLR(1).
pub fn lr_table_from_grammar_with_seed(g: &Grammar, seed: u64) -> (res: Result<LRTable, String>)
    requires
        g@.wf(),
        origin_not_empty(g@),
        node_count(g@) + edge_budget(g@.rules) + 1 < i32::MAX,
    ensures
        exists|f: LR0ItemSetFamily|
            f.of_grammar(g@) && match res {
                Ok(t) => slr1_family_ok(g@, f.sets()) && slr1_table_of(&t, g@, &f),
                Err(e) => !slr1_family_ok(g@, f.sets()) && e@ == "not an SLR(1) grammar"@,
            },
{
    let data = LR0ItemSetFamily::from_grammar_with_seed(g, seed);
    let ff = FirstFollowSet::from_grammar(g);
    slr1_table_from_family(g, &data, &ff)
}

/// The SLR(1) table built with seed 0.
pub fn lr_table_from_grammar(g: &Grammar) -> (res: Result<LRTable, String>)
    requires
        g@.wf(),
        origin_not_empty(g@),
        node_count(g@) + edge_budget(g@.rules) + 1 < i32::MAX,
    ensures
        exists|f: LR0ItemSetFamily|
            f.of_grammar(g@) && match res {
                Ok(t) => slr1_family_ok(g@, f.sets()) && slr1_table_of(&t, g@, &f),
                Err(e) => !slr1_family_ok(g@, f.sets()) && e@ == "not an SLR(1) grammar"@,
            },
{
    lr_table_from_grammar_with_seed(g, 0)
}

/// Whether a grammar is SLR(1) does not depend on how its LR(0) family was built: two
/// families of `g` are both free of SLR(1) conflicts or both not. So `is_slr1_grammar`
/// answers true exactly when `lr_table_from_grammar_with_seed` builds a table, whatever the
/// seed.
pub proof fn law_slr1_class_unique(g: SpecGrammar, f1: &LR0ItemSetFamily, f2: &LR0ItemSetFamily)
    requires
        f1.of_grammar(g),
        f2.of_grammar(g),
    ensures
        slr1_family_ok(g, f1.sets()) == slr1_family_ok(g, f2.sets()),
{
    law_family_sets_unique(g, f1, f2);
    let a = f1.sets();
    let b = f2.sets();
    if slr1_family_ok(g, a) {
        assert forall|s: int| 0 <= s < b.len() implies #[trigger] slr1_set_ok(g, b[s]) by {
            assert(b.to_set().contains(b[s]));
            let t = choose|t: int| 0 <= t < a.len() && a[t] == b[s];
        }
    }
    if slr1_family_ok(g, b) {
        assert forall|s: int| 0 <= s < a.len() implies #[trigger] slr1_set_ok(g, a[s]) by {
            assert(a.to_set().contains(a[s]));
            let t = choose|t: int| 0 <= t < b.len() && b[t] == a[s];
        }
    }
}

/// Every LR(0) grammar is SLR(1): a set of LR(0) items free of LR(0) conflicts has no
/// two items ready to reduce and none ready to reduce beside a shift, so no lookahead can
/// clash in it.
pub proof fn law_lr0_is_slr1(g: SpecGrammar, sets: Seq<Set<SpecItem0>>)
    requires
        lr0_family_ok(sets),
    ensures
        slr1_family_ok(g, sets),
{
    assert forall|s: int| 0 <= s < sets.len() implies #[trigger] slr1_set_ok(g, sets[s]) by {
        assert(lr0_set_ok(sets[s]));
    }
}

} // verus!

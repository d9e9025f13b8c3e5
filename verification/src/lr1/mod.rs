pub mod lr1_item;
pub mod lr1_item_set;
pub mod universe;
pub mod lr1_item_set_family;
pub mod laws;

use vstd::prelude::*;
use self::lr1_item::{LR1Item, SpecItem1, spec_shift1};
use self::lr1_item_set::items1_view;
use self::lr1_item_set_family::{LR1ItemSetFamily, GoFunctionItem, Ctx1, go1, go_get1, go_row_map1, go_entry_ok1, lemma_go_row_has1};
use self::universe::{good1, lemma_good_symbol, lemma_go1_nonempty};
use crate::grammar::letter::{Letter, SpecLetter, seq_view};
use crate::grammar::{Grammar, SpecGrammar, declared_symbol};
use crate::first_follow_set::{FirstFollowSet, node_count, edge_budget};
use crate::lr0::lr0_item::item_rule;
use crate::lr0::lr0_item_set_family::signs_of;
use crate::lr0::{action_keys, goto_of};
use crate::lr_table::{LRTable, GotoTableItem, ActionTableItem, SpecAction, goto_map, action_map, goto_put, action_put, action_get};

verus! {

/// An LR(1) item set without conflicts: distinct items ready to reduce expect distinct
/// symbols, and no terminal after a dot is expected by one of them.
pub open spec fn lr1_set_ok(s: Set<SpecItem1>) -> bool {
    &&& forall|a: SpecItem1, b: SpecItem1| s.contains(a) && s.contains(b) && a != b && a.y.len() == 0 && b.y.len() == 0 ==> a.expected != b.expected
    &&& forall|a: SpecItem1, b: SpecItem1|
        s.contains(a) && s.contains(b) && a.y.len() == 0 && b.y.len() > 0 && b.y[0] is Terminal ==> b.y[0] != a.expected
}

/// Every set of the family is free of conflicts.
pub open spec fn lr1_family_ok(sets: Seq<Set<SpecItem1>>) -> bool {
    forall|s: int| 0 <= s < sets.len() ==> #[trigger] lr1_set_ok(sets[s])
}

/// Whether some item of `s` shifts `x`.
pub open spec fn shifts1(s: Set<SpecItem1>, x: SpecLetter) -> bool {
    exists|b: SpecItem1| s.contains(b) && b.y.len() > 0 && b.y[0] is Terminal && b.y[0] == x
}

/// Whether some item of `s` is ready to reduce with `x` expected.
pub open spec fn reduces1(s: Set<SpecItem1>, x: SpecLetter) -> bool {
    exists|a: SpecItem1| s.contains(a) && a.y.len() == 0 && a.expected == x
}

/// The item of `s` ready to reduce with `x` expected.
pub open spec fn reducer1(s: Set<SpecItem1>, x: SpecLetter) -> SpecItem1 {
    choose|a: SpecItem1| s.contains(a) && a.y.len() == 0 && a.expected == x
}

/// The LR(1) ACTION entry of state `s` for `x`.
pub open spec fn lr1_entry(g: SpecGrammar, f: &LR1ItemSetFamily, s: int, x: SpecLetter) -> SpecAction {
    let set = f.sets()[s];
    if shifts1(set, x) {
        match go_row_map1(f.go_function@[s]@)[x] {
            GoFunctionItem::Step(t) => SpecAction::Step(t),
            GoFunctionItem::Error => SpecAction::Error,
        }
    } else if reduces1(set, x) {
        let a = reducer1(set, x);
        if a.left == g.origin && x == SpecLetter::EndSign {
            SpecAction::Accept
        } else {
            SpecAction::Reduce(item_rule(a.left, a.x, a.y))
        }
    } else {
        SpecAction::Error
    }
}

/// The LR(1) ACTION row of state `s`.
pub open spec fn lr1_action_row(g: SpecGrammar, f: &LR1ItemSetFamily, s: int) -> Map<SpecLetter, SpecAction> {
    Map::new(
        |x: SpecLetter| action_keys(g, x) || shifts1(f.sets()[s], x) || reduces1(f.sets()[s], x),
        |x: SpecLetter| lr1_entry(g, f, s, x),
    )
}

/// The GOTO row of state `s`: the GO function on the non terminals.
pub open spec fn lr1_goto_row(g: SpecGrammar, f: &LR1ItemSetFamily, s: int) -> Map<SpecLetter, GotoTableItem> {
    Map::new(
        |x: SpecLetter| g.non_terminals.contains(x),
        |x: SpecLetter|
            match go_row_map1(f.go_function@[s]@)[x] {
                GoFunctionItem::Step(t) => GotoTableItem::Step(t),
                GoFunctionItem::Error => GotoTableItem::Error,
            },
    )
}

/// The LR(1) table of a family.
pub open spec fn lr1_table_of(t: &LRTable, g: SpecGrammar, f: &LR1ItemSetFamily) -> bool {
    &&& t.goto@.len() == f.sets().len()
    &&& t.action@.len() == f.sets().len()
    &&& forall|s: int| 0 <= s < f.sets().len() ==> #[trigger] t.goto_maps()[s] == lr1_goto_row(g, f, s)
    &&& forall|s: int| 0 <= s < f.sets().len() ==> #[trigger] t.action_maps()[s] == lr1_action_row(g, f, s)
}

/// Whether the set `v` (each item once) has no LR(1) conflict.
fn lr1_items_ok(items: &Vec<LR1Item>, Ghost(v): Ghost<Seq<SpecItem1>>) -> (res: bool)
    requires
        v.no_duplicates(),
        items@.len() == v.len(),
        forall|j: int| 0 <= j < v.len() ==> (#[trigger] items@[j])@ == v[j],
    ensures
        res == lr1_set_ok(v.to_set()),
{
    let ghost set = v.to_set();
    for i in 0..items.len()
        invariant
            set == v.to_set(),
            v.no_duplicates(),
            items@.len() == v.len(),
            forall|j: int| 0 <= j < v.len() ==> (#[trigger] items@[j])@ == v[j],
            forall|a: int, b: int| 0 <= a < i && 0 <= b < v.len() && a != b && v[a].y.len() == 0 && v[b].y.len() == 0 ==> v[a].expected != v[b].expected,
            forall|a: int, b: int| 0 <= a < i && 0 <= b < v.len() && v[a].y.len() == 0 && v[b].y.len() > 0 && v[b].y[0] is Terminal ==> v[b].y[0] != v[a].expected,
    {
        assert(items@[i as int]@ == v[i as int]);
        if items[i].y.len() == 0 {
            for j in 0..items.len()
                invariant
                    set == v.to_set(),
                    v.no_duplicates(),
                    items@.len() == v.len(),
                    forall|j: int| 0 <= j < v.len() ==> (#[trigger] items@[j])@ == v[j],
                    0 <= i < v.len(),
                    v[i as int].y.len() == 0,
                    forall|a: int, b: int| 0 <= a < i && 0 <= b < v.len() && a != b && v[a].y.len() == 0 && v[b].y.len() == 0 ==> v[a].expected != v[b].expected,
                    forall|a: int, b: int| 0 <= a < i && 0 <= b < v.len() && v[a].y.len() == 0 && v[b].y.len() > 0 && v[b].y[0] is Terminal ==> v[b].y[0] != v[a].expected,
                    forall|b: int| 0 <= b < j && b != i && v[b].y.len() == 0 ==> v[i as int].expected != v[b].expected,
                    forall|b: int| 0 <= b < j && v[b].y.len() > 0 && v[b].y[0] is Terminal ==> v[b].y[0] != v[i as int].expected,
            {
                assert(items@[j as int]@ == v[j as int]);
                if j != i {
                    if items[j].y.len() == 0 {
                        if items[j].expected == items[i].expected {
                            proof {
                                assert(v[i as int] != v[j as int]);
                                assert(set.contains(v[i as int]) && set.contains(v[j as int]));
                            }
                            return false;
                        }
                    } else {
                        assert(items@[j as int].y@[0]@ == v[j as int].y[0]);
                        if items[j].y[0].is_terminal() && items[j].y[0] == items[i].expected {
                            proof {
                                assert(set.contains(v[i as int]) && set.contains(v[j as int]));
                            }
                            return false;
                        }
                    }
                }
            }
        }
    }
    proof {
        assert forall|a: SpecItem1, b: SpecItem1| set.contains(a) && set.contains(b) && a != b && a.y.len() == 0 && b.y.len() == 0 implies a.expected != b.expected by {
            let ia = choose|ia: int| 0 <= ia < v.len() && v[ia] == a;
            let ib = choose|ib: int| 0 <= ib < v.len() && v[ib] == b;
        }
        assert forall|a: SpecItem1, b: SpecItem1|
            set.contains(a) && set.contains(b) && a.y.len() == 0 && b.y.len() > 0 && b.y[0] is Terminal implies b.y[0] != a.expected by {
            let ia = choose|ia: int| 0 <= ia < v.len() && v[ia] == a;
            let ib = choose|ib: int| 0 <= ib < v.len() && v[ib] == b;
        }
    }
    true
}

/// Whether no set of the family has a conflict.
pub fn is_lr1_grammar_helper(data: &LR1ItemSetFamily) -> (res: bool)
    requires
        forall|s: int| 0 <= s < data.item_sets@.len() ==> (#[trigger] data.item_sets@[s])@.no_duplicates(),
    ensures
        res == lr1_family_ok(data.sets()),
{
    for s in 0..data.item_sets.len()
        invariant
            forall|s: int| 0 <= s < data.item_sets@.len() ==> (#[trigger] data.item_sets@[s])@.no_duplicates(),
            forall|t: int| 0 <= t < s ==> #[trigger] lr1_set_ok(data.sets()[t]),
    {
        let ghost v = data.item_sets@[s as int]@;
        assert(data.sets()[s as int] == v.to_set());
        if !lr1_items_ok(&data.item_sets[s].items, Ghost(v)) {
            assert(!lr1_set_ok(data.sets()[s as int]));
            return false;
        }
    }
    true
}

/// Whether the grammar is LR(1): no set of its LR(1) item set family has a conflict.
pub fn is_lr1_grammar(g: &Grammar) -> (res: bool)
    requires
        g@.wf(),
        node_count(g@) + edge_budget(g@.rules) + 1 < i32::MAX,
    ensures
        exists|f: LR1ItemSetFamily, ff: FirstFollowSet| ff.of_grammar(g@) && f.of_grammar(g@, ff.first_set@) && res == lr1_family_ok(f.sets()),
{
    let data = LR1ItemSetFamily::from_grammar(g);
    let res = is_lr1_grammar_helper(&data);
    proof {
        let ff = choose|ff: FirstFollowSet| ff.of_grammar(g@) && data.of_grammar(g@, ff.first_set@);
        assert(ff.of_grammar(g@) && data.of_grammar(g@, ff.first_set@) && res == lr1_family_ok(data.sets()));
    }
    res
}

/// The GOTO row of state `s`.
fn lr1_goto_row_of(g: &Grammar, data: &LR1ItemSetFamily, s: usize, Ghost(m): Ghost<Seq<(Letter, Vec<Letter>)>>) -> (res: Vec<(Letter, GotoTableItem)>)
    requires
        g@.wf(),
        data.of_grammar(g@, m),
        s < data.sets().len(),
    ensures
        goto_map(res@) == lr1_goto_row(g@, data, s as int),
{
    let mut row: Vec<(Letter, GotoTableItem)> = Vec::new();
    for k in 0..g.non_terminals.len()
        invariant
            g@.wf(),
            data.of_grammar(g@, m),
            s < data.sets().len(),
            goto_map(row@) == Map::new(
                |x: SpecLetter| g@.non_terminals.take(k as int).contains(x),
                |x: SpecLetter| lr1_goto_row(g@, data, s as int)[x],
            ),
    {
        let nt = &g.non_terminals[k];
        assert(nt@ == g@.non_terminals[k as int]);
        proof {
            assert(signs_of(g@).contains(nt@));
            lemma_go_row_has1(data, g@, m, s as int, nt@);
        }
        let e = match go_get1(&data.go_function[s], nt) {
            Some(GoFunctionItem::Step(t)) => GotoTableItem::Step(t),
            Some(GoFunctionItem::Error) => GotoTableItem::Error,
            None => {
                assert(false);
                GotoTableItem::Error
            },
        };
        assert(g@.non_terminals.contains(nt@));
        assert(e == lr1_goto_row(g@, data, s as int)[nt@]);
        goto_put(&mut row, nt.clone(), e);
        proof {
            broadcast use vstd::seq_lib::lemma_seq_contains_after_push;
            assert(g@.non_terminals.take(k + 1) =~= g@.non_terminals.take(k as int).push(nt@));
            assert(goto_map(row@) =~= Map::new(
                |x: SpecLetter| g@.non_terminals.take(k + 1).contains(x),
                |x: SpecLetter| lr1_goto_row(g@, data, s as int)[x],
            ));
        }
    }
    assert(g@.non_terminals.take(g@.non_terminals.len() as int) =~= g@.non_terminals);
    assert(goto_map(row@) =~= lr1_goto_row(g@, data, s as int));
    row
}

/// Whether item `a` writes an ACTION entry for `x`.
pub open spec fn writes1(a: SpecItem1, x: SpecLetter) -> bool {
    (a.y.len() > 0 && a.y[0] is Terminal && a.y[0] == x) || (a.y.len() == 0 && a.expected == x)
}

/// The LR(1) ACTION row of state `s`.
#[verifier::rlimit(40)]
fn lr1_action_row_of(g: &Grammar, data: &LR1ItemSetFamily, s: usize, Ghost(m): Ghost<Seq<(Letter, Vec<Letter>)>>) -> (res: Vec<(Letter, ActionTableItem)>)
    requires
        g@.wf(),
        data.of_grammar(g@, m),
        s < data.sets().len(),
        lr1_family_ok(data.sets()),
    ensures
        action_map(res@) == lr1_action_row(g@, data, s as int),
{
    let items = &data.item_sets[s].items;
    let ghost v = data.item_sets@[s as int]@;
    let ghost set = v.to_set();
    let ghost w = Ctx1 { rules: g@.rules, m };
    assert(data.sets()[s as int] == set);
    assert(lr1_set_ok(set));
    assert(set.subset_of(good1(g@.rules, m)));
    let mut row: Vec<(Letter, ActionTableItem)> = Vec::new();
    for i in 0..items.len()
        invariant
            g@.wf(),
            data.of_grammar(g@, m),
            s < data.sets().len(),
            v == data.item_sets@[s as int]@,
            set == v.to_set(),
            data.sets()[s as int] == set,
            lr1_set_ok(set),
            set.subset_of(good1(g@.rules, m)),
            w == (Ctx1 { rules: g@.rules, m }),
            items@.len() == v.len(),
            forall|j: int| 0 <= j < v.len() ==> (#[trigger] items@[j])@ == v[j],
            forall|x: SpecLetter| action_map(row@).dom().contains(x) <==> exists|j: int| 0 <= j < i && #[trigger] writes1(v[j], x),
            forall|x: SpecLetter| action_map(row@).dom().contains(x) ==> action_map(row@)[x] == lr1_entry(g@, data, s as int, x),
    {
        assert(items@[i as int]@ == v[i as int]);
        let item = &items[i];
        let ghost a = v[i as int];
        assert(set.contains(a));
        if item.y.len() == 0 {
            let x = &item.expected;
            proof {
                assert(!shifts1(set, x@)) by {
                    if shifts1(set, x@) {
                        let b = choose|b: SpecItem1| set.contains(b) && b.y.len() > 0 && b.y[0] is Terminal && b.y[0] == x@;
                    }
                }
                assert(reduces1(set, x@));
                let r = reducer1(set, x@);
                if r != a {
                    assert(r.expected == a.expected);
                }
                assert(r == a);
            }
            let e = if item.left == g.origin && item.expected.is_end_sign() {
                ActionTableItem::Accept
            } else {
                ActionTableItem::Reduce(item.rule())
            };
            assert(e@ == lr1_entry(g@, data, s as int, x@));
            action_put(&mut row, x.clone(), e);
            proof {
                assert forall|y: SpecLetter| action_map(row@).dom().contains(y) <==> exists|j: int| 0 <= j < i + 1 && #[trigger] writes1(v[j], y) by {
                    if y == x@ {
                        assert(writes1(v[i as int], y));
                    } else if exists|j: int| 0 <= j < i + 1 && #[trigger] writes1(v[j], y) {
                        let j = choose|j: int| 0 <= j < i + 1 && #[trigger] writes1(v[j], y);
                        if j == i {
                            assert(false);
                        }
                    }
                }
            }
        } else if item.y[0].is_terminal() {
            assert(item.y@[0]@ == a.y[0]);
            let x = &item.y[0];
            proof {
                lemma_good_symbol(g@, m, a);
                assert(signs_of(g@).contains(a.y[0]));
                lemma_go_row_has1(data, g@, m, s as int, x@);
                lemma_go1_nonempty(set, g@.rules, m, a);
                assert(shifts1(set, x@));
            }
            let e = match go_get1(&data.go_function[s], x) {
                Some(GoFunctionItem::Step(n)) => ActionTableItem::Step(n),
                Some(GoFunctionItem::Error) => {
                    proof {
                        let k = choose|k: int| 0 <= k < data.go_function@[s as int]@.len() && data.go_function@[s as int]@[k].0@ == x@
                            && data.go_function@[s as int]@[k].1 == GoFunctionItem::Error;
                        assert(go_entry_ok1(data.sets(), w, s as int, data.go_function@[s as int]@[k].0@, data.go_function@[s as int]@[k].1));
                        assert(go1(set, w, x@).contains(spec_shift1(a)));
                    }
                    assert(false);
                    ActionTableItem::Error
                },
                None => {
                    assert(false);
                    ActionTableItem::Error
                },
            };
            action_put(&mut row, x.clone(), e);
            proof {
                assert forall|y: SpecLetter| action_map(row@).dom().contains(y) <==> exists|j: int| 0 <= j < i + 1 && #[trigger] writes1(v[j], y) by {
                    if y == x@ {
                        assert(writes1(v[i as int], y));
                    } else if exists|j: int| 0 <= j < i + 1 && #[trigger] writes1(v[j], y) {
                        let j = choose|j: int| 0 <= j < i + 1 && #[trigger] writes1(v[j], y);
                        if j == i {
                            assert(false);
                        }
                    }
                }
            }
        } else {
            proof {
                assert forall|y: SpecLetter| action_map(row@).dom().contains(y) <==> exists|j: int| 0 <= j < i + 1 && #[trigger] writes1(v[j], y) by {
                    if exists|j: int| 0 <= j < i + 1 && #[trigger] writes1(v[j], y) {
                        let j = choose|j: int| 0 <= j < i + 1 && #[trigger] writes1(v[j], y);
                        if j == i {
                            assert(!(item.y@[0]@ is Terminal));
                            assert(item.y@[0]@ == a.y[0]);
                        }
                    }
                }
            }
        }
    }
    proof {
        assert forall|x: SpecLetter| action_map(row@).dom().contains(x) <==> (shifts1(set, x) || reduces1(set, x)) by {
            if action_map(row@).dom().contains(x) {
                let j = choose|j: int| 0 <= j < v.len() && #[trigger] writes1(v[j], x);
                assert(set.contains(v[j]));
            }
            if shifts1(set, x) {
                let b = choose|b: SpecItem1| set.contains(b) && b.y.len() > 0 && b.y[0] is Terminal && b.y[0] == x;
                let j = choose|j: int| 0 <= j < v.len() && v[j] == b;
                assert(writes1(v[j], x));
            }
            if reduces1(set, x) {
                let b = choose|b: SpecItem1| set.contains(b) && b.y.len() == 0 && b.expected == x;
                let j = choose|j: int| 0 <= j < v.len() && v[j] == b;
                assert(writes1(v[j], x));
            }
        }
    }
    let ghost base = action_map(row@);
    for k in 0..g.terminals.len()
        invariant
            g@.wf(),
            data.of_grammar(g@, m),
            s < data.sets().len(),
            data.sets()[s as int] == set,
            forall|x: SpecLetter| base.dom().contains(x) <==> (shifts1(set, x) || reduces1(set, x)),
            forall|x: SpecLetter| base.dom().contains(x) ==> base[x] == lr1_entry(g@, data, s as int, x),
            action_map(row@) == Map::new(
                |x: SpecLetter| base.dom().contains(x) || g@.terminals.take(k as int).contains(x),
                |x: SpecLetter| lr1_entry(g@, data, s as int, x),
            ),
    {
        let t = &g.terminals[k];
        assert(t@ == g@.terminals[k as int]);
        proof {
            broadcast use vstd::seq_lib::lemma_seq_contains_after_push;
            assert(g@.terminals.take(k + 1) =~= g@.terminals.take(k as int).push(t@));
        }
        if action_get(&row, t).is_none() {
            assert(lr1_entry(g@, data, s as int, t@) == SpecAction::Error);
            action_put(&mut row, t.clone(), ActionTableItem::Error);
        }
        assert(action_map(row@) =~= Map::new(
            |x: SpecLetter| base.dom().contains(x) || g@.terminals.take(k + 1).contains(x),
            |x: SpecLetter| lr1_entry(g@, data, s as int, x),
        ));
    }
    assert(g@.terminals.take(g@.terminals.len() as int) =~= g@.terminals);
    let ghost m1 = action_map(row@);
    assert(m1 == Map::new(
        |x: SpecLetter| base.dom().contains(x) || g@.terminals.contains(x),
        |x: SpecLetter| lr1_entry(g@, data, s as int, x),
    ));
    let end = Letter::EndSign;
    if action_get(&row, &end).is_none() {
        assert(lr1_entry(g@, data, s as int, end@) == SpecAction::Error);
        action_put(&mut row, end, ActionTableItem::Error);
        assert(action_map(row@) == m1.insert(SpecLetter::EndSign, SpecAction::Error));
    } else {
        assert(m1.dom().contains(SpecLetter::EndSign));
        assert(action_map(row@) == m1);
    }
    assert(forall|x: SpecLetter| x != SpecLetter::EndSign ==> (action_map(row@).dom().contains(x) == m1.dom().contains(x)));
    assert(forall|x: SpecLetter| x != SpecLetter::EndSign && m1.dom().contains(x) ==> action_map(row@)[x] == m1[x]);
    proof {
        let m2 = action_map(row@);
        let want = lr1_action_row(g@, data, s as int);
        assert forall|x: SpecLetter| m2.dom().contains(x) <==> want.dom().contains(x) by {
            if x == SpecLetter::EndSign {
                assert(action_keys(g@, x));
            }
            if want.dom().contains(x) && x != SpecLetter::EndSign {
                assert(action_keys(g@, x) || shifts1(set, x) || reduces1(set, x));
                if shifts1(set, x) || reduces1(set, x) {
                    assert(base.dom().contains(x));
                } else {
                    assert(g@.terminals.contains(x));
                }
                assert(m1.dom().contains(x));
            }
        }
        assert forall|x: SpecLetter| m2.dom().contains(x) implies m2[x] == want[x] by {
            if x != SpecLetter::EndSign {
                assert(m1.dom().contains(x));
                assert(m2[x] == m1[x]);
            }
        }
        assert(m2 =~= want);
    }
    row
}

/// The LR(1) table of a family, or the message that the grammar is not LR(1).
pub fn lr1_table_from_family(g: &Grammar, data: &LR1ItemSetFamily) -> (res: Result<LRTable, String>)
    requires
        g@.wf(),
        exists|m: Seq<(Letter, Vec<Letter>)>| data.of_grammar(g@, m),
    ensures
        match res {
            Ok(t) => lr1_family_ok(data.sets()) && lr1_table_of(&t, g@, data),
            Err(e) => !lr1_family_ok(data.sets()) && e@ == "not an LR(1) grammar"@,
        },
{
    let ghost m = choose|m: Seq<(Letter, Vec<Letter>)>| data.of_grammar(g@, m);
    if !is_lr1_grammar_helper(data) {
        return Err(String::from_str("not an LR(1) grammar"));
    }
    let mut goto: Vec<Vec<(Letter, GotoTableItem)>> = Vec::new();
    let mut action: Vec<Vec<(Letter, ActionTableItem)>> = Vec::new();
    for s in 0..data.item_sets.len()
        invariant
            g@.wf(),
            data.of_grammar(g@, m),
            lr1_family_ok(data.sets()),
            goto@.len() == s,
            action@.len() == s,
            forall|t: int| 0 <= t < s ==> goto_map(#[trigger] goto@[t]@) == lr1_goto_row(g@, data, t),
            forall|t: int| 0 <= t < s ==> action_map(#[trigger] action@[t]@) == lr1_action_row(g@, data, t),
    {
        goto.push(lr1_goto_row_of(g, data, s, Ghost(m)));
        action.push(lr1_action_row_of(g, data, s, Ghost(m)));
    }
    let t = LRTable { goto, action };
    assert(forall|s: int| 0 <= s < data.sets().len() ==> #[trigger] t.goto_maps()[s] == goto_map(t.goto@[s]@));
    assert(forall|s: int| 0 <= s < data.sets().len() ==> #[trigger] t.action_maps()[s] == action_map(t.action@[s]@));
    Ok(t)
}

/// The LR(1) table of the grammar, built on the item set family of `seed`, or the
/// message that the grammar is not LR(1).
pub fn lr_table_from_grammar_with_seed(g: &Grammar, seed: u64) -> (res: Result<LRTable, String>)
    requires
        g@.wf(),
        node_count(g@) + edge_budget(g@.rules) + 1 < i32::MAX,
    ensures
        exists|f: LR1ItemSetFamily, ff: FirstFollowSet|
            ff.of_grammar(g@) && f.of_grammar(g@, ff.first_set@) && match res {
                Ok(t) => lr1_family_ok(f.sets()) && lr1_table_of(&t, g@, &f),
                Err(e) => !lr1_family_ok(f.sets()) && e@ == "not an LR(1) grammar"@,
            },
{
    let data = LR1ItemSetFamily::from_grammar_with_seed(g, seed);
    let ghost ff = choose|ff: FirstFollowSet| ff.of_grammar(g@) && data.of_grammar(g@, ff.first_set@);
    let res = lr1_table_from_family(g, &data);
    assert(ff.of_grammar(g@) && data.of_grammar(g@, ff.first_set@));
    res
}

/// The LR(1) table built with seed 0.
pub fn lr_table_from_grammar(g: &Grammar) -> (res: Result<LRTable, String>)
    requires
        g@.wf(),
        node_count(g@) + edge_budget(g@.rules) + 1 < i32::MAX,
    ensures
        exists|f: LR1ItemSetFamily, ff: FirstFollowSet|
            ff.of_grammar(g@) && f.of_grammar(g@, ff.first_set@) && match res {
                Ok(t) => lr1_family_ok(f.sets()) && lr1_table_of(&t, g@, &f),
                Err(e) => !lr1_family_ok(f.sets()) && e@ == "not an LR(1) grammar"@,
            },
{
    lr_table_from_grammar_with_seed(g, 0)
}


/// In the LR(1) table of a family, `Accept` stands only in the column of the end marker,
/// in a state that holds an item of the start symbol ready to reduce with `#` expected.
pub proof fn law_lr1_accept_only_at_end(t: &LRTable, g: SpecGrammar, f: &LR1ItemSetFamily)
    requires
        lr1_table_of(t, g, f),
    ensures
        forall|s: int, x: SpecLetter|
            0 <= s < f.sets().len() && #[trigger] t.action_maps()[s].dom().contains(x) && t.action_maps()[s][x] == SpecAction::Accept
                ==> x == SpecLetter::EndSign && reduces1(f.sets()[s], x) && reducer1(f.sets()[s], x).left == g.origin,
{
    assert forall|s: int, x: SpecLetter|
        0 <= s < f.sets().len() && #[trigger] t.action_maps()[s].dom().contains(x) && t.action_maps()[s][x] == SpecAction::Accept
            implies x == SpecLetter::EndSign && reduces1(f.sets()[s], x) && reducer1(f.sets()[s], x).left == g.origin by {
        assert(t.action_maps()[s] == lr1_action_row(g, f, s));
        if shifts1(f.sets()[s], x) {
            match go_row_map1(f.go_function@[s]@)[x] {
                GoFunctionItem::Step(n) => {},
                GoFunctionItem::Error => {},
            }
        }
    }
}
} // verus!

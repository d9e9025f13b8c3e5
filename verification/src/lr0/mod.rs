pub mod lr0_item;
pub mod lr0_item_set;
pub mod lr0_item_set_family;

use vstd::prelude::*;
use self::lr0_item::{LR0Item, SpecItem0, item_rule};
use self::lr0_item_set_family::{LR0ItemSetFamily, GoFunctionItem, go_get, go_row_map, lemma_go_row_has, signs_of, law_family_sets_unique};
use crate::grammar::letter::{Letter, SpecLetter};
use crate::grammar::{Grammar, SpecGrammar};
use crate::lr_table::{LRTable, GotoTableItem, ActionTableItem, SpecAction, goto_map, action_map, goto_put, action_put};

verus! {

/// An LR(0) item set without conflicts: at most one item ready to reduce, and none
/// beside it with a terminal after the dot.
pub open spec fn lr0_set_ok(s: Set<SpecItem0>) -> bool {
    &&& forall|a: SpecItem0, b: SpecItem0| s.contains(a) && s.contains(b) && a.y.len() == 0 && b.y.len() == 0 ==> a == b
    &&& forall|a: SpecItem0, b: SpecItem0|
        s.contains(a) && s.contains(b) && a.y.len() == 0 ==> !(b.y.len() > 0 && b.y[0] is Terminal)
}

/// Every set of the family is free of conflicts.
pub open spec fn lr0_family_ok(sets: Seq<Set<SpecItem0>>) -> bool {
    forall|s: int| 0 <= s < sets.len() ==> #[trigger] lr0_set_ok(sets[s])
}

/// Whether the set holds an item ready to reduce.
pub open spec fn has_reduce0(s: Set<SpecItem0>) -> bool {
    exists|a: SpecItem0| s.contains(a) && a.y.len() == 0
}

/// The item of the set that is ready to reduce.
pub open spec fn reduce_item0(s: Set<SpecItem0>) -> SpecItem0 {
    choose|a: SpecItem0| s.contains(a) && a.y.len() == 0
}

/// The GOTO entry for a GO function entry.
pub open spec fn goto_of(item: GoFunctionItem) -> GotoTableItem {
    match item {
        GoFunctionItem::Step(t) => GotoTableItem::Step(t),
        GoFunctionItem::Error => GotoTableItem::Error,
    }
}

/// The ACTION entry of a shift for a GO function entry.
pub open spec fn shift_of(item: GoFunctionItem) -> SpecAction {
    match item {
        GoFunctionItem::Step(t) => SpecAction::Step(t),
        GoFunctionItem::Error => SpecAction::Error,
    }
}

/// The GOTO row of state `s`: the GO function on the non terminals.
pub open spec fn lr_goto_row(g: SpecGrammar, f: &LR0ItemSetFamily, s: int) -> Map<SpecLetter, GotoTableItem> {
    Map::new(|x: SpecLetter| g.non_terminals.contains(x), |x: SpecLetter| goto_of(go_row_map(f.go_function@[s]@)[x]))
}

/// The symbols of an ACTION row: the terminals and the end marker.
pub open spec fn action_keys(g: SpecGrammar, x: SpecLetter) -> bool {
    g.terminals.contains(x) || x == SpecLetter::EndSign
}

/// The LR(0) ACTION row of state `s`: accept or reduce on every symbol if the set holds
/// an item ready to reduce, else shift by the GO function.
pub open spec fn lr0_action_row(g: SpecGrammar, f: &LR0ItemSetFamily, s: int) -> Map<SpecLetter, SpecAction> {
    let set = f.sets()[s];
    if has_reduce0(set) {
        let a = reduce_item0(set);
        if a.left == g.origin {
            Map::new(
                |x: SpecLetter| action_keys(g, x),
                |x: SpecLetter|
                    if x == SpecLetter::EndSign {
                        SpecAction::Accept
                    } else {
                        SpecAction::Error
                    },
            )
        } else {
            Map::new(|x: SpecLetter| action_keys(g, x), |x: SpecLetter| SpecAction::Reduce(item_rule(a.left, a.x, a.y)))
        }
    } else {
        Map::new(
            |x: SpecLetter| action_keys(g, x),
            |x: SpecLetter|
                if x == SpecLetter::EndSign {
                    SpecAction::Error
                } else {
                    shift_of(go_row_map(f.go_function@[s]@)[x])
                },
        )
    }
}

/// The LR(0) table of a family.
pub open spec fn lr0_table_of(t: &LRTable, g: SpecGrammar, f: &LR0ItemSetFamily) -> bool {
    &&& t.goto@.len() == f.sets().len()
    &&& t.action@.len() == f.sets().len()
    &&& forall|s: int| 0 <= s < f.sets().len() ==> #[trigger] t.goto_maps()[s] == lr_goto_row(g, f, s)
    &&& forall|s: int| 0 <= s < f.sets().len() ==> #[trigger] t.action_maps()[s] == lr0_action_row(g, f, s)
}

/// Whether no set of the family has a conflict.
pub fn is_lr0_grammar_helper(data: &LR0ItemSetFamily) -> (res: bool)
    requires
        forall|s: int| 0 <= s < data.item_sets@.len() ==> (#[trigger] data.item_sets@[s])@.no_duplicates(),
    ensures
        res == lr0_family_ok(data.sets()),
{
    for s in 0..data.item_sets.len()
        invariant
            forall|s: int| 0 <= s < data.item_sets@.len() ==> (#[trigger] data.item_sets@[s])@.no_duplicates(),
            forall|t: int| 0 <= t < s ==> #[trigger] lr0_set_ok(data.sets()[t]),
    {
        let items = &data.item_sets[s].items;
        let ghost v = data.item_sets@[s as int]@;
        assert(data.sets()[s as int] == v.to_set());
        let mut reduce_at: Option<usize> = None;
        let mut step_seen = false;
        for i in 0..items.len()
            invariant
                s < data.item_sets@.len(),
                data.sets()[s as int] == v.to_set(),
                v == data.item_sets@[s as int]@,
                v.no_duplicates(),
                items@.len() == v.len(),
                forall|j: int| 0 <= j < v.len() ==> (#[trigger] items@[j])@ == v[j],
                match reduce_at {
                    Some(r) => r < i && v[r as int].y.len() == 0 && forall|j: int| 0 <= j < i && j != r ==> (#[trigger] v[j]).y.len() > 0,
                    None => forall|j: int| 0 <= j < i ==> (#[trigger] v[j]).y.len() > 0,
                },
                step_seen == exists|j: int| 0 <= j < i && (#[trigger] v[j]).y.len() > 0 && v[j].y[0] is Terminal,
        {
            assert(items@[i as int]@ == v[i as int]);
            if items[i].y.len() == 0 {
                if let Some(r) = reduce_at {
                    proof {
                        assert(v[r as int] != v[i as int]);
                        assert(v.to_set().contains(v[r as int]) && v.to_set().contains(v[i as int]));
                        assert(!lr0_set_ok(v.to_set()));
                        assert(!lr0_set_ok(data.sets()[s as int]));
                    }
                    return false;
                }
                reduce_at = Some(i);
            } else {
                assert(items@[i as int].y@[0]@ == v[i as int].y[0]);
                if items[i].y[0].is_terminal() {
                    step_seen = true;
                }
            }
        }
        if step_seen && reduce_at.is_some() {
            proof {
                let r = reduce_at->Some_0;
                let j = choose|j: int| 0 <= j < items@.len() && (#[trigger] v[j]).y.len() > 0 && v[j].y[0] is Terminal;
                assert(v.to_set().contains(v[r as int]) && v.to_set().contains(v[j]));
                assert(!lr0_set_ok(data.sets()[s as int]));
            }
            return false;
        }
        proof {
            let set = v.to_set();
            assert forall|a: SpecItem0, b: SpecItem0| set.contains(a) && set.contains(b) && a.y.len() == 0 && b.y.len() == 0 implies a == b by {
                let ia = choose|ia: int| 0 <= ia < v.len() && v[ia] == a;
                let ib = choose|ib: int| 0 <= ib < v.len() && v[ib] == b;
            }
            assert forall|a: SpecItem0, b: SpecItem0|
                set.contains(a) && set.contains(b) && a.y.len() == 0 implies !(b.y.len() > 0 && b.y[0] is Terminal) by {
                let ia = choose|ia: int| 0 <= ia < v.len() && v[ia] == a;
                let ib = choose|ib: int| 0 <= ib < v.len() && v[ib] == b;
                if b.y.len() > 0 && b.y[0] is Terminal {
                    assert(step_seen);
                }
            }
            assert(lr0_set_ok(data.sets()[s as int]));
        }
    }
    true
}

/// Whether the grammar is LR(0): no set of its item set family has a conflict.
pub fn is_lr0_grammar(g: &Grammar) -> (res: bool)
    requires
        g@.wf(),
    ensures
        exists|f: LR0ItemSetFamily| f.of_grammar(g@) && res == lr0_family_ok(f.sets()),
{
    let data = LR0ItemSetFamily::from_grammar(g);
    let res = is_lr0_grammar_helper(&data);
    assert(data.of_grammar(g@) && res == lr0_family_ok(data.sets()));
    res
}

/// The GOTO row of state `s`.
pub(crate) fn goto_row_of(g: &Grammar, data: &LR0ItemSetFamily, s: usize) -> (res: Vec<(Letter, GotoTableItem)>)
    requires
        g@.wf(),
        data.of_grammar(g@),
        s < data.sets().len(),
    ensures
        goto_map(res@) == lr_goto_row(g@, data, s as int),
{
    let mut row: Vec<(Letter, GotoTableItem)> = Vec::new();
    for k in 0..g.non_terminals.len()
        invariant
            g@.wf(),
            data.of_grammar(g@),
            s < data.sets().len(),
            goto_map(row@) == Map::new(
                |x: SpecLetter| g@.non_terminals.take(k as int).contains(x),
                |x: SpecLetter| goto_of(go_row_map(data.go_function@[s as int]@)[x]),
            ),
    {
        let nt = &g.non_terminals[k];
        assert(nt@ == g@.non_terminals[k as int]);
        proof {
            assert(signs_of(g@).contains(nt@));
            lemma_go_row_has(data, g@, s as int, nt@);
        }
        let e = match go_get(&data.go_function[s], nt) {
            Some(GoFunctionItem::Step(t)) => GotoTableItem::Step(t),
            Some(GoFunctionItem::Error) => GotoTableItem::Error,
            None => {
                assert(false);
                GotoTableItem::Error
            },
        };
        assert(e == goto_of(go_row_map(data.go_function@[s as int]@)[nt@]));
        let ghost before = goto_map(row@);
        goto_put(&mut row, nt.clone(), e);
        proof {
            broadcast use vstd::seq_lib::lemma_seq_contains_after_push;
            assert(g@.non_terminals.take(k + 1) =~= g@.non_terminals.take(k as int).push(nt@));
            assert(goto_map(row@) =~= Map::new(
                |x: SpecLetter| g@.non_terminals.take(k + 1).contains(x),
                |x: SpecLetter| goto_of(go_row_map(data.go_function@[s as int]@)[x]),
            ));
        }
    }
    assert(g@.non_terminals.take(g@.non_terminals.len() as int) =~= g@.non_terminals);
    assert(goto_map(row@) =~= lr_goto_row(g@, data, s as int));
    row
}

/// An ACTION row holding `f(x)` for every terminal `x` and `end` for the end marker.
fn fill_action_row(g: &Grammar, data: &LR0ItemSetFamily, s: usize, mode: u8, reduce: &Option<LR0Item>) -> (res: Vec<(Letter, ActionTableItem)>)
    requires
        g@.wf(),
        data.of_grammar(g@),
        s < data.sets().len(),
        mode < 3,
        mode != 2 ==> reduce.is_some(),
    ensures
        action_map(res@) == Map::new(
            |x: SpecLetter| action_keys(g@, x),
            |x: SpecLetter| row_value0(g@, data, s as int, mode, reduce_spec(*reduce), x),
        ),
{
    let mut row: Vec<(Letter, ActionTableItem)> = Vec::new();
    for k in 0..g.terminals.len()
        invariant
            g@.wf(),
            data.of_grammar(g@),
            s < data.sets().len(),
            mode < 3,
            mode != 2 ==> reduce.is_some(),
            action_map(row@) == Map::new(
                |x: SpecLetter| g@.terminals.take(k as int).contains(x),
                |x: SpecLetter| row_value0(g@, data, s as int, mode, reduce_spec(*reduce), x),
            ),
    {
        let t = &g.terminals[k];
        assert(t@ == g@.terminals[k as int]);
        assert(t@ is Terminal);
        let e = if mode == 0 {
            ActionTableItem::Error
        } else if mode == 1 {
            match reduce {
                Some(it) => ActionTableItem::Reduce(it.rule()),
                None => ActionTableItem::Error,
            }
        } else {
            proof {
                assert(signs_of(g@).contains(t@));
                lemma_go_row_has(data, g@, s as int, t@);
            }
            match go_get(&data.go_function[s], t) {
                Some(GoFunctionItem::Step(n)) => ActionTableItem::Step(n),
                Some(GoFunctionItem::Error) => ActionTableItem::Error,
                None => {
                    assert(false);
                    ActionTableItem::Error
                },
            }
        };
        let ghost ev = e@;
        action_put(&mut row, t.clone(), e);
        proof {
            assert(ev == row_value0(g@, data, s as int, mode, reduce_spec(*reduce), t@));
            broadcast use vstd::seq_lib::lemma_seq_contains_after_push;
            assert(g@.terminals.take(k + 1) =~= g@.terminals.take(k as int).push(t@));
            assert(action_map(row@) =~= Map::new(
                |x: SpecLetter| g@.terminals.take(k + 1).contains(x),
                |x: SpecLetter| row_value0(g@, data, s as int, mode, reduce_spec(*reduce), x),
            ));
        }
    }
    let e = if mode == 0 {
        ActionTableItem::Accept
    } else if mode == 1 {
        match reduce {
            Some(it) => ActionTableItem::Reduce(it.rule()),
            None => ActionTableItem::Error,
        }
    } else {
        ActionTableItem::Error
    };
    action_put(&mut row, Letter::EndSign, e);
    assert(g@.terminals.take(g@.terminals.len() as int) =~= g@.terminals);
    assert(action_map(row@) =~= Map::new(
        |x: SpecLetter| action_keys(g@, x),
        |x: SpecLetter| row_value0(g@, data, s as int, mode, reduce_spec(*reduce), x),
    ));
    row
}

/// The item, if any, as an abstract value.
pub open spec fn reduce_spec(r: Option<LR0Item>) -> Option<SpecItem0> {
    match r {
        Some(it) => Some(it@),
        None => None,
    }
}

/// The value an LR(0) ACTION row holds for `x`: in mode 0 (accept) `#` accepts and
/// the rest fails, in mode 1 everything reduces by the item's production, in mode 2
/// terminals shift by the GO function and `#` fails.
pub open spec fn row_value0(g: SpecGrammar, f: &LR0ItemSetFamily, s: int, mode: u8, r: Option<SpecItem0>, x: SpecLetter) -> SpecAction {
    if mode == 0 {
        if x == SpecLetter::EndSign {
            SpecAction::Accept
        } else {
            SpecAction::Error
        }
    } else if mode == 1 {
        match r {
            Some(a) => SpecAction::Reduce(item_rule(a.left, a.x, a.y)),
            None => SpecAction::Error,
        }
    } else if x == SpecLetter::EndSign {
        SpecAction::Error
    } else {
        shift_of(go_row_map(f.go_function@[s]@)[x])
    }
}

/// The LR(0) table of a family whose sets have no conflicts, or the message that the
/// grammar is not LR(0).
pub fn lr0_table_from_family(g: &Grammar, data: &LR0ItemSetFamily) -> (res: Result<LRTable, String>)
    requires
        g@.wf(),
        data.of_grammar(g@),
    ensures
        match res {
            Ok(t) => lr0_family_ok(data.sets()) && lr0_table_of(&t, g@, data),
            Err(e) => !lr0_family_ok(data.sets()) && e@ == "not an LR(0) grammar"@,
        },
{
    if !is_lr0_grammar_helper(data) {
        return Err(String::from_str("not an LR(0) grammar"));
    }
    let mut goto: Vec<Vec<(Letter, GotoTableItem)>> = Vec::new();
    let mut action: Vec<Vec<(Letter, ActionTableItem)>> = Vec::new();
    for s in 0..data.item_sets.len()
        invariant
            g@.wf(),
            data.of_grammar(g@),
            lr0_family_ok(data.sets()),
            goto@.len() == s,
            action@.len() == s,
            forall|t: int| 0 <= t < s ==> goto_map(#[trigger] goto@[t]@) == lr_goto_row(g@, data, t),
            forall|t: int| 0 <= t < s ==> action_map(#[trigger] action@[t]@) == lr0_action_row(g@, data, t),
    {
        goto.push(goto_row_of(g, data, s));
        let items = &data.item_sets[s].items;
        let ghost v = data.item_sets@[s as int]@;
        assert(data.sets()[s as int] == v.to_set());
        let mut reduce: Option<LR0Item> = None;
        let mut i: usize = 0;
        while reduce.is_none() && i < items.len()
            invariant
                v == data.item_sets@[s as int]@,
                items@.len() == v.len(),
                forall|j: int| 0 <= j < v.len() ==> (#[trigger] items@[j])@ == v[j],
                i <= v.len(),
                match reduce {
                    Some(it) => v.contains(it@) && it@.y.len() == 0,
                    None => forall|j: int| 0 <= j < i ==> (#[trigger] v[j]).y.len() > 0,
                },
            decreases v.len() - i,
        {
            assert(items@[i as int]@ == v[i as int]);
            if items[i].y.len() == 0 {
                reduce = Some(items[i].clone());
            }
            i = i + 1;
        }
        let ghost set = v.to_set();
        proof {
            assert(lr0_set_ok(data.sets()[s as int]));
        }
        let row = match &reduce {
            Some(it) => {
                proof {
                    assert(set.contains(it@));
                    assert(has_reduce0(set));
                    assert(reduce_item0(set) == it@);
                }
                if it.left == g.origin {
                    fill_action_row(g, data, s, 0, &reduce)
                } else {
                    fill_action_row(g, data, s, 1, &reduce)
                }
            },
            None => {
                proof {
                    assert(!has_reduce0(set)) by {
                        if has_reduce0(set) {
                            let a = choose|a: SpecItem0| set.contains(a) && a.y.len() == 0;
                            let j = choose|j: int| 0 <= j < v.len() && v[j] == a;
                        }
                    }
                }
                fill_action_row(g, data, s, 2, &reduce)
            },
        };
        proof {
            assert(action_map(row@) =~= lr0_action_row(g@, data, s as int));
        }
        action.push(row);
    }
    let t = LRTable { goto, action };
    assert(forall|s: int| 0 <= s < data.sets().len() ==> #[trigger] t.goto_maps()[s] == goto_map(t.goto@[s]@));
    assert(forall|s: int| 0 <= s < data.sets().len() ==> #[trigger] t.action_maps()[s] == action_map(t.action@[s]@));
    Ok(t)
}

/// The LR(0) table of the grammar, built on the item set family of `seed`, or the
/// message that the grammar is not LR(0).
pub fn lr_table_from_grammar_with_seed(g: &Grammar, seed: u64) -> (res: Result<LRTable, String>)
    requires
        g@.wf(),
    ensures
        exists|f: LR0ItemSetFamily|
            f.of_grammar(g@) && match res {
                Ok(t) => lr0_family_ok(f.sets()) && lr0_table_of(&t, g@, &f),
                Err(e) => !lr0_family_ok(f.sets()) && e@ == "not an LR(0) grammar"@,
            },
{
    let data = LR0ItemSetFamily::from_grammar_with_seed(g, seed);
    lr0_table_from_family(g, &data)
}

/// The LR(0) table built with seed 0.
pub fn lr_table_from_grammar(g: &Grammar) -> (res: Result<LRTable, String>)
    requires
        g@.wf(),
    ensures
        exists|f: LR0ItemSetFamily|
            f.of_grammar(g@) && match res {
                Ok(t) => lr0_family_ok(f.sets()) && lr0_table_of(&t, g@, &f),
                Err(e) => !lr0_family_ok(f.sets()) && e@ == "not an LR(0) grammar"@,
            },
{
    lr_table_from_grammar_with_seed(g, 0)
}

/// Whether a grammar is LR(0) does not depend on how its family was built: two families of
/// `g` are both free of LR(0) conflicts or both not. So `is_lr0_grammar` answers true
/// exactly when `lr_table_from_grammar_with_seed` builds a table, whatever the seed.
pub proof fn law_lr0_class_unique(g: SpecGrammar, f1: &LR0ItemSetFamily, f2: &LR0ItemSetFamily)
    requires
        f1.of_grammar(g),
        f2.of_grammar(g),
    ensures
        lr0_family_ok(f1.sets()) == lr0_family_ok(f2.sets()),
{
    law_family_sets_unique(g, f1, f2);
    let a = f1.sets();
    let b = f2.sets();
    if lr0_family_ok(a) {
        assert forall|s: int| 0 <= s < b.len() implies #[trigger] lr0_set_ok(b[s]) by {
            assert(b.to_set().contains(b[s]));
            let t = choose|t: int| 0 <= t < a.len() && a[t] == b[s];
        }
    }
    if lr0_family_ok(b) {
        assert forall|s: int| 0 <= s < a.len() implies #[trigger] lr0_set_ok(a[s]) by {
            assert(a.to_set().contains(a[s]));
            let t = choose|t: int| 0 <= t < b.len() && b[t] == a[s];
        }
    }
}


/// In the LR(0) table of a family, `Accept` stands only in the column of the end marker,
/// and only in the states that hold the item of the start symbol ready to reduce; such a
/// state accepts at the end marker and refuses every terminal.
pub proof fn law_lr0_accept_only_at_end(t: &LRTable, g: SpecGrammar, f: &LR0ItemSetFamily)
    requires
        lr0_table_of(t, g, f),
    ensures
        forall|s: int, x: SpecLetter|
            0 <= s < f.sets().len() && #[trigger] t.action_maps()[s].dom().contains(x) && t.action_maps()[s][x] == SpecAction::Accept
                ==> x == SpecLetter::EndSign && has_reduce0(f.sets()[s]) && reduce_item0(f.sets()[s]).left == g.origin,
        forall|s: int, x: SpecLetter|
            0 <= s < f.sets().len() && has_reduce0(f.sets()[s]) && reduce_item0(f.sets()[s]).left == g.origin && #[trigger] t.action_maps()[s].dom().contains(x)
                ==> t.action_maps()[s][x] == (if x == SpecLetter::EndSign { SpecAction::Accept } else { SpecAction::Error }),
{
    assert forall|s: int, x: SpecLetter|
        0 <= s < f.sets().len() && #[trigger] t.action_maps()[s].dom().contains(x) && t.action_maps()[s][x] == SpecAction::Accept
            implies x == SpecLetter::EndSign && has_reduce0(f.sets()[s]) && reduce_item0(f.sets()[s]).left == g.origin by {
        assert(t.action_maps()[s] == lr0_action_row(g, f, s));
        if !has_reduce0(f.sets()[s]) && x != SpecLetter::EndSign {
            match go_row_map(f.go_function@[s]@)[x] {
                GoFunctionItem::Step(n) => {},
                GoFunctionItem::Error => {},
            }
        }
    }
    assert forall|s: int, x: SpecLetter|
        0 <= s < f.sets().len() && has_reduce0(f.sets()[s]) && reduce_item0(f.sets()[s]).left == g.origin && #[trigger] t.action_maps()[s].dom().contains(x)
            implies t.action_maps()[s][x] == (if x == SpecLetter::EndSign { SpecAction::Accept } else { SpecAction::Error }) by {
        assert(t.action_maps()[s] == lr0_action_row(g, f, s));
    }
}
} // verus!

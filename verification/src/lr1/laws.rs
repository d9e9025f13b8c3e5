use vstd::prelude::*;
use super::lr1_item::{SpecItem1, spec_shift1};
use super::lr1_item_set::{spec_closure1, closure_edge1, lookaheads, kernel1, spec_go1, initial_items1, cand_item, rule_body, item1_ok, letter_ok, lemma_sentence_first_within};
use super::lr1_item_set_family::{LR1ItemSetFamily, Ctx1, GoFunctionItem, go1, go_entry_ok1, reached1, lemma_go_row_has1};
use super::universe::{good1, lemma_context1};
use super::{lr1_family_ok, lr1_set_ok};
use crate::grammar::letter::{Letter, SpecLetter};
use crate::grammar::{SpecGrammar, declared_symbol, wf_rule};
use crate::first_follow_set::{FirstFollowSet, keys_of, has_entry, sentence_first, lemma_sentence_first_agree};
use crate::lr0::lr0_item_set_family::signs_of;
use crate::utils::{closed_under, least_closed, lemma_least_closed_init, lemma_least_closed_step, lemma_least_closed_min};

verus! {

/// A symbol that may stand after the dot of an item of `g`: a terminal or a declared non terminal.
spec fn item_symbol(g: SpecGrammar, x: SpecLetter) -> bool {
    x is Terminal || (x is NonTerminal && g.non_terminals.contains(x))
}

/// An item of `g`: its symbols after the dot may stand there, and it expects a terminal,
/// `#` or a declared non terminal.
spec fn grammar_item(g: SpecGrammar, a: SpecItem1) -> bool {
    &&& forall|i: int| 0 <= i < a.y.len() ==> item_symbol(g, #[trigger] a.y[i])
    &&& (a.expected is EndSign || item_symbol(g, a.expected))
}

spec fn grammar_items(g: SpecGrammar, s: Set<SpecItem1>) -> bool {
    forall|a: SpecItem1| #[trigger] s.contains(a) ==> grammar_item(g, a)
}

/// A non terminal with an entry in a FIRST table of `g` is declared.
proof fn lemma_entry_declared(g: SpecGrammar, ff: &FirstFollowSet, x: SpecLetter)
    requires
        ff.of_grammar(g),
        has_entry(ff.first_set@, x),
    ensures
        g.non_terminals.contains(x),
{
    let m = ff.first_set@;
    let i = choose|i: int| 0 <= i < m.len() && (#[trigger] m[i]).0@ == x;
    assert(keys_of(m)[i] == x);
    assert(g.non_terminals[i] == x);
}

/// Two FIRST tables of `g` give an item of `g` the same lookaheads.
proof fn lemma_lookaheads_agree(g: SpecGrammar, ff1: &FirstFollowSet, ff2: &FirstFollowSet, a: SpecItem1)
    requires
        ff1.of_grammar(g),
        ff2.of_grammar(g),
        grammar_item(g, a),
        a.y.len() > 0,
    ensures
        lookaheads(ff1.first_set@, a) == lookaheads(ff2.first_set@, a),
{
    let s = a.y.skip(1).push(a.expected);
    assert forall|i: int| 0 <= i < s.len() && (#[trigger] s[i]) is NonTerminal implies g.non_terminals.contains(s[i]) by {
        if i < s.len() - 1 {
            assert(s[i] == a.y[i + 1]);
            assert(item_symbol(g, a.y[i + 1]));
        }
    }
    lemma_sentence_first_agree(g, ff1, ff2, s);
}

/// A closure step from an item of `g` gives an item of `g`.
proof fn lemma_edge_grammar_item(g: SpecGrammar, ff: &FirstFollowSet, a: SpecItem1, b: SpecItem1)
    requires
        g.wf(),
        ff.of_grammar(g),
        grammar_item(g, a),
        closure_edge1(g.rules, ff.first_set@)(a, b),
    ensures
        grammar_item(g, b),
{
    let m = ff.first_set@;
    let k = choose|k: int| 0 <= k < g.rules.len() && (#[trigger] g.rules[k]).left == a.y[0] && b.y == rule_body(g.rules[k]);
    let r = g.rules[k];
    assert(wf_rule(g, r));
    assert forall|i: int| 0 <= i < b.y.len() implies item_symbol(g, #[trigger] b.y[i]) by {
        assert(r.right != seq![SpecLetter::Empty]) by {
            if r.right == seq![SpecLetter::Empty] {
                assert(r.right.len() == 1 && r.right[0] is Empty);
            }
        }
        assert(b.y[i] == r.right[i]);
        assert(declared_symbol(g, r.right[i]));
    }
    lemma_context1(g, ff);
    let s = a.y.skip(1).push(a.expected);
    let es = Set::new(|x: SpecLetter| true);
    assert forall|i: int| 0 <= i < s.len() && (#[trigger] s[i]) is NonTerminal implies has_entry(m, s[i]) by {
        if i < s.len() - 1 {
            assert(s[i] == a.y[i + 1]);
            assert(item_symbol(g, a.y[i + 1]));
        } else {
            assert(s[i] == a.expected);
        }
        let j = choose|j: int| 0 <= j < g.non_terminals.len() && g.non_terminals[j] == s[i];
        assert(keys_of(m)[j] == s[i]);
        assert(m[j].0@ == s[i]);
    }
    assert forall|i: int| 0 <= i < s.len() implies (#[trigger] s[i]) is Terminal || s[i] is NonTerminal || s[i] is EndSign by {
        if i < s.len() - 1 {
            assert(s[i] == a.y[i + 1]);
            assert(item_symbol(g, a.y[i + 1]));
        }
    }
    lemma_sentence_first_within(m, s, es);
    assert(!(s.len() == 1 && s[0] is Empty));
    assert(sentence_first(m, s).contains(b.expected));
}

/// The closure of items of `g` is the same under any FIRST table of `g`, and holds items of `g`.
proof fn lemma_closure_agree(g: SpecGrammar, ff1: &FirstFollowSet, ff2: &FirstFollowSet, init: Set<SpecItem1>)
    requires
        g.wf(),
        ff1.of_grammar(g),
        ff2.of_grammar(g),
        grammar_items(g, init),
    ensures
        spec_closure1(init, g.rules, ff1.first_set@) == spec_closure1(init, g.rules, ff2.first_set@),
        grammar_items(g, spec_closure1(init, g.rules, ff1.first_set@)),
{
    lemma_closure_items(g, ff1, init);
    lemma_closure_items(g, ff2, init);
    lemma_closure_within(g, ff1, ff2, init);
    lemma_closure_within(g, ff2, ff1, init);
    assert(spec_closure1(init, g.rules, ff1.first_set@) =~= spec_closure1(init, g.rules, ff2.first_set@));
}

/// The closure of items of `g` holds items of `g`.
proof fn lemma_closure_items(g: SpecGrammar, ff: &FirstFollowSet, init: Set<SpecItem1>)
    requires
        g.wf(),
        ff.of_grammar(g),
        grammar_items(g, init),
    ensures
        grammar_items(g, spec_closure1(init, g.rules, ff.first_set@)),
{
    let e = closure_edge1(g.rules, ff.first_set@);
    let c = least_closed(init, e);
    let s = Set::new(|a: SpecItem1| c.contains(a) && grammar_item(g, a));
    assert forall|a: SpecItem1| init.contains(a) implies s.contains(a) by {
        lemma_least_closed_init(init, e, a);
    }
    assert(closed_under(e, s)) by {
        assert forall|a: SpecItem1, b: SpecItem1| s.contains(a) && #[trigger] e(a, b) implies s.contains(b) by {
            lemma_least_closed_step(init, e, a, b);
            lemma_edge_grammar_item(g, ff, a, b);
        }
    }
    lemma_least_closed_min(init, e, s);
}

/// The closure under the second table lies in that under the first.
proof fn lemma_closure_within(g: SpecGrammar, ff1: &FirstFollowSet, ff2: &FirstFollowSet, init: Set<SpecItem1>)
    requires
        g.wf(),
        ff1.of_grammar(g),
        ff2.of_grammar(g),
        grammar_items(g, spec_closure1(init, g.rules, ff1.first_set@)),
    ensures
        spec_closure1(init, g.rules, ff2.first_set@).subset_of(spec_closure1(init, g.rules, ff1.first_set@)),
{
    let e1 = closure_edge1(g.rules, ff1.first_set@);
    let e2 = closure_edge1(g.rules, ff2.first_set@);
    let c1 = least_closed(init, e1);
    assert forall|a: SpecItem1| init.contains(a) implies c1.contains(a) by {
        lemma_least_closed_init(init, e1, a);
    }
    assert(closed_under(e2, c1)) by {
        assert forall|a: SpecItem1, b: SpecItem1| c1.contains(a) && #[trigger] e2(a, b) implies c1.contains(b) by {
            lemma_lookaheads_agree(g, ff1, ff2, a);
            assert(e1(a, b));
            lemma_least_closed_step(init, e1, a, b);
        }
    }
    lemma_least_closed_min(init, e2, c1);
}

/// GO of items of `g` is the same under any FIRST table of `g`.
proof fn lemma_go_agree(g: SpecGrammar, ff1: &FirstFollowSet, ff2: &FirstFollowSet, s: Set<SpecItem1>, x: SpecLetter)
    requires
        g.wf(),
        ff1.of_grammar(g),
        ff2.of_grammar(g),
        grammar_items(g, s),
    ensures
        spec_go1(s, g.rules, ff1.first_set@, x) == spec_go1(s, g.rules, ff2.first_set@, x),
{
    let k = kernel1(s, x);
    assert forall|it: SpecItem1| #[trigger] k.contains(it) implies grammar_item(g, it) by {
        let a = choose|a: SpecItem1| s.contains(a) && a.y.len() > 0 && a.y[0] == x && it == spec_shift1(a);
        assert(grammar_item(g, a));
        assert forall|i: int| 0 <= i < it.y.len() implies item_symbol(g, #[trigger] it.y[i]) by {
            assert(it.y[i] == a.y[i + 1]);
        }
    }
    lemma_closure_agree(g, ff1, ff2, k);
}

/// The sets of a family of `g` hold items of `g`.
proof fn lemma_family_items(g: SpecGrammar, ff: &FirstFollowSet, f: &LR1ItemSetFamily, s: int)
    requires
        ff.of_grammar(g),
        f.of_grammar(g, ff.first_set@),
        0 <= s < f.sets().len(),
    ensures
        grammar_items(g, f.sets()[s]),
{
    let m = ff.first_set@;
    assert forall|a: SpecItem1| #[trigger] f.sets()[s].contains(a) implies grammar_item(g, a) by {
        assert(good1(g.rules, m).contains(a));
        assert(item1_ok(g.rules, m, a));
        assert forall|i: int| 0 <= i < a.y.len() implies item_symbol(g, #[trigger] a.y[i]) by {
            assert(letter_ok(g.rules, m, a.y[i]));
            if a.y[i] is NonTerminal {
                lemma_entry_declared(g, ff, a.y[i]);
            }
        }
        if a.expected is NonTerminal {
            lemma_entry_declared(g, ff, a.expected);
        }
    }
}

/// Every set of one LR(1) family of `g` is a set of any other.
proof fn lemma_family_set_in(g: SpecGrammar, ff1: &FirstFollowSet, ff2: &FirstFollowSet, f1: &LR1ItemSetFamily, f2: &LR1ItemSetFamily, s: int)
    requires
        g.wf(),
        ff1.of_grammar(g),
        ff2.of_grammar(g),
        f1.of_grammar(g, ff1.first_set@),
        f2.of_grammar(g, ff2.first_set@),
        0 <= s < f1.sets().len(),
    ensures
        f2.sets().contains(f1.sets()[s]),
    decreases s,
{
    let m1 = ff1.first_set@;
    let m2 = ff2.first_set@;
    let w1 = Ctx1 { rules: g.rules, m: m1 };
    let w2 = Ctx1 { rules: g.rules, m: m2 };
    let a = f1.sets();
    let b = f2.sets();
    if s == 0 {
        let init = initial_items1(g);
        assert forall|it: SpecItem1| #[trigger] init.contains(it) implies grammar_item(g, it) by {
            let k = choose|k: int| 0 <= k < g.rules.len() && (#[trigger] g.rules[k]).left == g.origin && it == cand_item(g.rules[k], SpecLetter::EndSign);
            let r = g.rules[k];
            assert(wf_rule(g, r));
            assert forall|i: int| 0 <= i < it.y.len() implies item_symbol(g, #[trigger] it.y[i]) by {
                assert(r.right != seq![SpecLetter::Empty]) by {
                    if r.right == seq![SpecLetter::Empty] {
                        assert(r.right.len() == 1 && r.right[0] is Empty);
                    }
                }
                assert(it.y[i] == r.right[i]);
                assert(declared_symbol(g, r.right[i]));
            }
        }
        lemma_closure_agree(g, ff1, ff2, init);
        assert(b[0] == a[0]);
    } else {
        assert(reached1(a, w1, signs_of(g), s));
        let (t, x) = choose|t: int, x: SpecLetter| 0 <= t < s && signs_of(g).contains(x) && a[s] == #[trigger] go1(a[t], w1, x);
        lemma_family_set_in(g, ff1, ff2, f1, f2, t);
        let u = choose|u: int| 0 <= u < b.len() && b[u] == a[t];
        lemma_family_items(g, ff1, f1, t);
        lemma_go_agree(g, ff1, ff2, a[t], x);
        lemma_go_row_has1(f2, g, m2, u, x);
        let i = choose|i: int| 0 <= i < f2.go_function@[u]@.len() && (#[trigger] f2.go_function@[u]@[i]).0@ == x;
        let item = f2.go_function@[u]@[i].1;
        assert(go_entry_ok1(b, w2, u, x, item));
        assert(a[s] != Set::<SpecItem1>::empty());
        match item {
            GoFunctionItem::Error => {},
            GoFunctionItem::Step(v) => {
                assert(b[v as int] == a[s]);
            },
        }
    }
}

/// The LR(1) family of a grammar depends neither on the order in which it was built (the
/// seed) nor on which FIRST table of the grammar it was built with: any two families hold
/// the same item sets, as many of them, and are both free of LR(1) conflicts or both not.
/// So `is_lr1_grammar` answers true exactly when `lr_table_from_grammar_with_seed` builds a
/// table, whatever the seed.
pub proof fn law_lr1_class_unique(g: SpecGrammar, ff1: &FirstFollowSet, ff2: &FirstFollowSet, f1: &LR1ItemSetFamily, f2: &LR1ItemSetFamily)
    requires
        g.wf(),
        ff1.of_grammar(g),
        ff2.of_grammar(g),
        f1.of_grammar(g, ff1.first_set@),
        f2.of_grammar(g, ff2.first_set@),
    ensures
        f1.sets().to_set() == f2.sets().to_set(),
        f1.sets().len() == f2.sets().len(),
        lr1_family_ok(f1.sets()) == lr1_family_ok(f2.sets()),
{
    let a = f1.sets();
    let b = f2.sets();
    assert forall|x: Set<SpecItem1>| a.to_set().contains(x) <==> b.to_set().contains(x) by {
        if a.contains(x) {
            let s = choose|s: int| 0 <= s < a.len() && a[s] == x;
            lemma_family_set_in(g, ff1, ff2, f1, f2, s);
        }
        if b.contains(x) {
            let s = choose|s: int| 0 <= s < b.len() && b[s] == x;
            lemma_family_set_in(g, ff2, ff1, f2, f1, s);
        }
    }
    assert(a.to_set() =~= b.to_set());
    a.unique_seq_to_set();
    b.unique_seq_to_set();
    if lr1_family_ok(a) {
        assert forall|s: int| 0 <= s < b.len() implies #[trigger] lr1_set_ok(b[s]) by {
            assert(b.to_set().contains(b[s]));
            let t = choose|t: int| 0 <= t < a.len() && a[t] == b[s];
        }
    }
    if lr1_family_ok(b) {
        assert forall|s: int| 0 <= s < a.len() implies #[trigger] lr1_set_ok(a[s]) by {
            assert(a.to_set().contains(a[s]));
            let t = choose|t: int| 0 <= t < b.len() && b[t] == a[s];
        }
    }
}

} // verus!

use vstd::prelude::*;
use super::lr1_item::{SpecItem1, spec_shift1};
use super::lr1_item_set::{
    rule_body, cand_item, closure_edge1, spec_closure1, spec_go1, kernel1, initial_items1, item1_ok, letter_ok,
    rule_ok1, context1_ok, lemma_sentence_first_within, lookaheads,
};
use crate::grammar::letter::{Letter, SpecLetter, seq_view};
use crate::grammar::rule::{SpecRule, rules_view};
use crate::grammar::{SpecGrammar, has_rule_for, wf_rule, declared_symbol};
use crate::first_follow_set::{FirstFollowSet, FFNode, ff_rel, ff_edge, rule_edge, is_target, node_letter, spec_first_set, keys_of, has_entry};
use crate::utils::{closed_under, least_closed, lemma_least_closed_min, lemma_reach_in_closed};

verus! {

/// The symbols of the FIRST table.
pub open spec fn first_letters(m: Seq<(Letter, Vec<Letter>)>) -> Seq<SpecLetter>
    decreases m.len(),
{
    if m.len() == 0 {
        Seq::empty()
    } else {
        first_letters(m.drop_last()) + seq_view(m.last().1@)
    }
}

/// The symbols of the productions.
pub open spec fn rule_letters(rules: Seq<SpecRule>) -> Seq<SpecLetter>
    decreases rules.len(),
{
    if rules.len() == 0 {
        Seq::empty()
    } else {
        rule_letters(rules.drop_last()) + rules.last().right
    }
}

/// The symbols an LR(1) item of the family can hold.
pub open spec fn letters1(rules: Seq<SpecRule>, m: Seq<(Letter, Vec<Letter>)>) -> Seq<SpecLetter> {
    first_letters(m) + rule_letters(rules) + seq![SpecLetter::EndSign]
}

/// The item of `r` with the dot at `p` of its body, expecting `e`.
pub open spec fn item_pos(r: SpecRule, p: int, e: SpecLetter) -> SpecItem1 {
    SpecItem1 { left: r.left, x: rule_body(r).take(p), y: rule_body(r).skip(p), expected: e }
}

pub open spec fn items_at(r: SpecRule, p: int, es: Seq<SpecLetter>) -> Seq<SpecItem1> {
    es.map_values(|e: SpecLetter| item_pos(r, p, e))
}

pub open spec fn rule_all_items1(r: SpecRule, es: Seq<SpecLetter>, p: nat) -> Seq<SpecItem1>
    decreases rule_body(r).len() + 1 - p,
{
    if p > rule_body(r).len() {
        Seq::empty()
    } else {
        items_at(r, p as int, es) + rule_all_items1(r, es, p + 1)
    }
}

pub open spec fn universe_seq1(rules: Seq<SpecRule>, es: Seq<SpecLetter>) -> Seq<SpecItem1>
    decreases rules.len(),
{
    if rules.len() == 0 {
        Seq::empty()
    } else {
        universe_seq1(rules.drop_last(), es) + rule_all_items1(rules.last(), es, 0)
    }
}

/// Every LR(1) item a family of the productions can hold.
pub open spec fn universe1(rules: Seq<SpecRule>, m: Seq<(Letter, Vec<Letter>)>) -> Set<SpecItem1> {
    universe_seq1(rules, letters1(rules, m)).to_set()
}

proof fn lemma_rule_all_items_contains(r: SpecRule, es: Seq<SpecLetter>, p0: nat, p: int, j: int)
    requires
        p0 <= p <= rule_body(r).len(),
        0 <= j < es.len(),
    ensures
        rule_all_items1(r, es, p0).contains(item_pos(r, p, es[j])),
    decreases rule_body(r).len() + 1 - p0,
{
    if p == p0 {
        assert(items_at(r, p, es)[j] == item_pos(r, p, es[j]));
        assert(rule_all_items1(r, es, p0)[j] == item_pos(r, p, es[j]));
    } else {
        lemma_rule_all_items_contains(r, es, p0 + 1, p, j);
        let rest = rule_all_items1(r, es, p0 + 1);
        let k = choose|k: int| 0 <= k < rest.len() && rest[k] == item_pos(r, p, es[j]);
        assert(rule_all_items1(r, es, p0)[items_at(r, p0 as int, es).len() + k] == rest[k]);
    }
}

proof fn lemma_rule_all_items_member(r: SpecRule, es: Seq<SpecLetter>, p0: nat, it: SpecItem1)
    requires
        rule_all_items1(r, es, p0).contains(it),
    ensures
        exists|p: int, j: int| p0 <= p <= rule_body(r).len() && 0 <= j < es.len() && it == item_pos(r, p, es[j]),
    decreases rule_body(r).len() + 1 - p0,
{
    let s = rule_all_items1(r, es, p0);
    let k = choose|k: int| 0 <= k < s.len() && s[k] == it;
    let a = items_at(r, p0 as int, es);
    if k < a.len() {
        assert(it == item_pos(r, p0 as int, es[k]));
    } else {
        let rest = rule_all_items1(r, es, p0 + 1);
        assert(rest[k - a.len()] == it);
        lemma_rule_all_items_member(r, es, p0 + 1, it);
    }
}

pub proof fn lemma_universe_contains(rules: Seq<SpecRule>, es: Seq<SpecLetter>, k: int, p: int, j: int)
    requires
        0 <= k < rules.len(),
        0 <= p <= rule_body(rules[k]).len(),
        0 <= j < es.len(),
    ensures
        universe_seq1(rules, es).contains(item_pos(rules[k], p, es[j])),
    decreases rules.len(),
{
    let u0 = universe_seq1(rules.drop_last(), es);
    if k < rules.len() - 1 {
        assert(rules.drop_last()[k] == rules[k]);
        lemma_universe_contains(rules.drop_last(), es, k, p, j);
        let i = choose|i: int| 0 <= i < u0.len() && u0[i] == item_pos(rules[k], p, es[j]);
        assert(universe_seq1(rules, es)[i] == u0[i]);
    } else {
        assert(rules.last() == rules[k]);
        lemma_rule_all_items_contains(rules[k], es, 0, p, j);
        let rest = rule_all_items1(rules[k], es, 0);
        let i = choose|i: int| 0 <= i < rest.len() && rest[i] == item_pos(rules[k], p, es[j]);
        assert(universe_seq1(rules, es)[u0.len() + i] == rest[i]);
    }
}

pub proof fn lemma_universe_member(rules: Seq<SpecRule>, es: Seq<SpecLetter>, it: SpecItem1)
    requires
        universe_seq1(rules, es).contains(it),
    ensures
        exists|k: int, p: int, j: int|
            0 <= k < rules.len() && 0 <= p <= rule_body(rules[k]).len() && 0 <= j < es.len() && it == item_pos(rules[k], p, es[j]),
    decreases rules.len(),
{
    let u0 = universe_seq1(rules.drop_last(), es);
    let s = universe_seq1(rules, es);
    let i = choose|i: int| 0 <= i < s.len() && s[i] == it;
    if i < u0.len() {
        assert(u0[i] == it);
        lemma_universe_member(rules.drop_last(), es, it);
        let (k, p, j) = choose|k: int, p: int, j: int|
            0 <= k < rules.drop_last().len() && 0 <= p <= rule_body(rules.drop_last()[k]).len() && 0 <= j < es.len() && it == item_pos(
                rules.drop_last()[k],
                p,
                es[j],
            );
        assert(rules.drop_last()[k] == rules[k]);
    } else {
        let rest = rule_all_items1(rules.last(), es, 0);
        assert(rest[i - u0.len()] == it);
        lemma_rule_all_items_member(rules.last(), es, 0, it);
        assert(rules[rules.len() - 1] == rules.last());
    }
}

pub proof fn lemma_first_letters_contains(m: Seq<(Letter, Vec<Letter>)>, i: int, j: int)
    requires
        0 <= i < m.len(),
        0 <= j < m[i].1@.len(),
    ensures
        first_letters(m).contains(m[i].1@[j]@),
    decreases m.len(),
{
    let f0 = first_letters(m.drop_last());
    if i < m.len() - 1 {
        assert(m.drop_last()[i] == m[i]);
        lemma_first_letters_contains(m.drop_last(), i, j);
        let k = choose|k: int| 0 <= k < f0.len() && f0[k] == m[i].1@[j]@;
        assert(first_letters(m)[k] == f0[k]);
    } else {
        assert(m.last() == m[i]);
        assert(seq_view(m[i].1@)[j] == m[i].1@[j]@);
        assert(first_letters(m)[f0.len() + j] == seq_view(m[i].1@)[j]);
    }
}

pub proof fn lemma_rule_letters_contains(rules: Seq<SpecRule>, k: int, j: int)
    requires
        0 <= k < rules.len(),
        0 <= j < rules[k].right.len(),
    ensures
        rule_letters(rules).contains(rules[k].right[j]),
    decreases rules.len(),
{
    let f0 = rule_letters(rules.drop_last());
    if k < rules.len() - 1 {
        assert(rules.drop_last()[k] == rules[k]);
        lemma_rule_letters_contains(rules.drop_last(), k, j);
        let i = choose|i: int| 0 <= i < f0.len() && f0[i] == rules[k].right[j];
        assert(rule_letters(rules)[i] == f0[i]);
    } else {
        assert(rules.last() == rules[k]);
        assert(rule_letters(rules)[f0.len() + j] == rules[k].right[j]);
    }
}

/// The symbols of `letters1` cover the FIRST table and the productions.
pub proof fn lemma_letters1(rules: Seq<SpecRule>, m: Seq<(Letter, Vec<Letter>)>)
    ensures
        forall|i: int, j: int| 0 <= i < m.len() && 0 <= j < m[i].1@.len() ==> letters1(rules, m).to_set().contains((#[trigger] m[i].1@[j])@),
        forall|k: int, j: int| 0 <= k < rules.len() && 0 <= j < rules[k].right.len() ==> letters1(rules, m).to_set().contains(#[trigger] rules[k].right[j]),
        letters1(rules, m).to_set().contains(SpecLetter::EndSign),
{
    let es = letters1(rules, m);
    let a = first_letters(m);
    let b = rule_letters(rules);
    assert forall|i: int, j: int| 0 <= i < m.len() && 0 <= j < m[i].1@.len() implies es.to_set().contains((#[trigger] m[i].1@[j])@) by {
        lemma_first_letters_contains(m, i, j);
        let k = choose|k: int| 0 <= k < a.len() && a[k] == m[i].1@[j]@;
        assert(es[k] == a[k]);
    }
    assert forall|k: int, j: int| 0 <= k < rules.len() && 0 <= j < rules[k].right.len() implies es.to_set().contains(#[trigger] rules[k].right[j]) by {
        lemma_rule_letters_contains(rules, k, j);
        let i = choose|i: int| 0 <= i < b.len() && b[i] == rules[k].right[j];
        assert(es[a.len() + i] == b[i]);
    }
    assert(es[(a.len() + b.len()) as int] == SpecLetter::EndSign);
}

/// Items of the universe that the closure can work with.
pub open spec fn good1(rules: Seq<SpecRule>, m: Seq<(Letter, Vec<Letter>)>) -> Set<SpecItem1> {
    universe1(rules, m).filter(|it: SpecItem1| item1_ok(rules, m, it))
}

/// An item of the universe holds symbols of `letters1`.
proof fn lemma_universe_item_letters(rules: Seq<SpecRule>, m: Seq<(Letter, Vec<Letter>)>, a: SpecItem1)
    requires
        universe1(rules, m).contains(a),
    ensures
        forall|i: int| 0 <= i < a.y.len() ==> letters1(rules, m).to_set().contains(#[trigger] a.y[i]),
        letters1(rules, m).to_set().contains(a.expected),
        exists|k: int, p: int| 0 <= k < rules.len() && 0 <= p <= rule_body(rules[k]).len() && a == item_pos(rules[k], p, a.expected),
{
    let es = letters1(rules, m);
    lemma_universe_member(rules, es, a);
    let (k, p, j) = choose|k: int, p: int, j: int|
        0 <= k < rules.len() && 0 <= p <= rule_body(rules[k]).len() && 0 <= j < es.len() && a == item_pos(rules[k], p, es[j]);
    lemma_letters1(rules, m);
    assert forall|i: int| 0 <= i < a.y.len() implies es.to_set().contains(#[trigger] a.y[i]) by {
        assert(a.y[i] == rule_body(rules[k])[p + i]);
        assert(rules[k].right[p + i] == a.y[i]);
    }
    assert(es[j] == a.expected);
}

/// The good items of the universe are closed under the closure step.
proof fn lemma_good_closed(rules: Seq<SpecRule>, ff: &FirstFollowSet)
    requires
        context1_ok(rules, ff),
    ensures
        closed_under(closure_edge1(rules, ff.first_set@), good1(rules, ff.first_set@)),
{
    let m = ff.first_set@;
    let es = letters1(rules, m);
    let gs = good1(rules, m);
    assert forall|a: SpecItem1, b: SpecItem1| gs.contains(a) && #[trigger] closure_edge1(rules, m)(a, b) implies gs.contains(b) by {
        lemma_universe_item_letters(rules, m, a);
        lemma_letters1(rules, m);
        let s = a.y.skip(1).push(a.expected);
        assert forall|i: int| 0 <= i < s.len() implies es.to_set().contains(#[trigger] s[i])
            && (s[i] is NonTerminal ==> has_entry(m, s[i])) && (s[i] is Terminal || s[i] is NonTerminal || s[i] is EndSign) by {
            if i < s.len() - 1 {
                assert(s[i] == a.y[i + 1]);
                assert(letter_ok(rules, m, a.y[i + 1]));
            }
        }
        lemma_sentence_first_within(m, s, es.to_set());
        assert(s != seq![SpecLetter::Empty]) by {
            if s == seq![SpecLetter::Empty] {
                assert(s[s.len() - 1] == a.expected);
            }
        }
        assert(lookaheads(m, a).contains(b.expected));
        let k = choose|k: int| 0 <= k < rules.len() && (#[trigger] rules[k]).left == a.y[0] && b.y == rule_body(rules[k]);
        let j = choose|j: int| 0 <= j < es.len() && es[j] == b.expected;
        assert(b.x =~= rule_body(rules[k]).take(0));
        assert(b.y =~= rule_body(rules[k]).skip(0));
        assert(b == item_pos(rules[k], 0, es[j]));
        lemma_universe_contains(rules, es, k, 0, j);
        assert(rule_ok1(rules, m, rules[k]));
        assert forall|i: int| 0 <= i < b.y.len() implies letter_ok(rules, m, #[trigger] b.y[i]) by {
            assert(b.y[i] == rules[k].right[i]);
        }
    }
}

/// The closure of good items of the universe stays among them.
pub proof fn lemma_closure_in_good(init: Set<SpecItem1>, rules: Seq<SpecRule>, ff: &FirstFollowSet)
    requires
        context1_ok(rules, ff),
        init.subset_of(good1(rules, ff.first_set@)),
    ensures
        spec_closure1(init, rules, ff.first_set@).subset_of(good1(rules, ff.first_set@)),
{
    lemma_good_closed(rules, ff);
    lemma_least_closed_min(init, closure_edge1(rules, ff.first_set@), good1(rules, ff.first_set@));
}

/// GO of good items of the universe stays among them.
pub proof fn lemma_go_in_good(s: Set<SpecItem1>, rules: Seq<SpecRule>, ff: &FirstFollowSet, x: SpecLetter)
    requires
        context1_ok(rules, ff),
        s.subset_of(good1(rules, ff.first_set@)),
    ensures
        spec_go1(s, rules, ff.first_set@, x).subset_of(good1(rules, ff.first_set@)),
{
    let m = ff.first_set@;
    let es = letters1(rules, m);
    let k1 = kernel1(s, x);
    assert(k1.subset_of(good1(rules, m))) by {
        assert forall|it: SpecItem1| k1.contains(it) implies good1(rules, m).contains(it) by {
            let a = choose|a: SpecItem1| s.contains(a) && a.y.len() > 0 && a.y[0] == x && it == spec_shift1(a);
            lemma_universe_item_letters(rules, m, a);
            let (k, p) = choose|k: int, p: int| 0 <= k < rules.len() && 0 <= p <= rule_body(rules[k]).len() && a == item_pos(rules[k], p, a.expected);
            let j = choose|j: int| 0 <= j < es.len() && es[j] == a.expected;
            assert(p < rule_body(rules[k]).len());
            assert(it.x =~= rule_body(rules[k]).take(p + 1));
            assert(it.y =~= rule_body(rules[k]).skip(p + 1));
            assert(it == item_pos(rules[k], p + 1, es[j]));
            lemma_universe_contains(rules, es, k, p + 1, j);
            assert forall|i: int| 0 <= i < it.y.len() implies letter_ok(rules, m, #[trigger] it.y[i]) by {
                assert(it.y[i] == a.y[i + 1]);
            }
        }
    }
    lemma_closure_in_good(k1, rules, ff);
}

/// The start items are good items of the universe.
pub proof fn lemma_initial_in_good(g: SpecGrammar, ff: &FirstFollowSet)
    requires
        context1_ok(g.rules, ff),
    ensures
        initial_items1(g).subset_of(good1(g.rules, ff.first_set@)),
{
    let rules = g.rules;
    let m = ff.first_set@;
    let es = letters1(rules, m);
    lemma_letters1(rules, m);
    assert forall|it: SpecItem1| initial_items1(g).contains(it) implies good1(rules, m).contains(it) by {
        let k = choose|k: int| 0 <= k < g.rules.len() && (#[trigger] g.rules[k]).left == g.origin && it == cand_item(g.rules[k], SpecLetter::EndSign);
        let j = choose|j: int| 0 <= j < es.len() && es[j] == SpecLetter::EndSign;
        assert(it.x =~= rule_body(rules[k]).take(0));
        assert(it.y =~= rule_body(rules[k]).skip(0));
        assert(it == item_pos(rules[k], 0, es[j]));
        lemma_universe_contains(rules, es, k, 0, j);
        assert(rule_ok1(rules, m, rules[k]));
        assert forall|i: int| 0 <= i < it.y.len() implies letter_ok(rules, m, #[trigger] it.y[i]) by {
            assert(it.y[i] == rules[k].right[i]);
        }
    }
}

/// FIRST sets of a grammar hold terminals and the empty word.
pub proof fn lemma_first_terminal(g: SpecGrammar, a: SpecLetter, t: SpecLetter)
    requires
        spec_first_set(g, a).contains(t),
    ensures
        t is Terminal || t is Empty,
{
    if t != SpecLetter::Empty {
        let s = Set::new(|v: FFNode| v is First || (v is Sym && v->Sym_0 is Terminal));
        assert(closed_under(ff_rel(g), s)) by {
            assert forall|u: FFNode, v: FFNode| s.contains(u) && #[trigger] ff_rel(g)(u, v) implies s.contains(v) by {
                if u is First {
                    let k = choose|k: int| 0 <= k < g.rules.len() && rule_edge(#[trigger] g.rules[k], crate::grammar::spec_empties(g.rules), u, v);
                    let r = g.rules[k];
                    if u == FFNode::First(r.left) && crate::first_follow_set::first_run(r.right, crate::grammar::spec_empties(g.rules)).contains(node_letter(v))
                        && is_target(node_letter(v), v) {
                    } else {
                        let i = choose|i: int|
                            0 <= i < r.right.len() && (#[trigger] r.right[i]) is NonTerminal && u == FFNode::Follow(r.right[i]) && (
                            (crate::first_follow_set::first_run(r.right.skip(i + 1), crate::grammar::spec_empties(g.rules)).contains(node_letter(v)) && is_target(node_letter(v), v))
                            || (crate::first_follow_set::all_nullable(r.right.skip(i + 1), crate::grammar::spec_empties(g.rules)) && v == FFNode::Follow(r.left)));
                    }
                } else {
                    assert(u is Sym);
                    if exists|k: int| 0 <= k < g.rules.len() && rule_edge(#[trigger] g.rules[k], crate::grammar::spec_empties(g.rules), u, v) {
                        let k = choose|k: int| 0 <= k < g.rules.len() && rule_edge(#[trigger] g.rules[k], crate::grammar::spec_empties(g.rules), u, v);
                        let r = g.rules[k];
                        if !(u == FFNode::First(r.left)) {
                            let i = choose|i: int|
                                0 <= i < r.right.len() && (#[trigger] r.right[i]) is NonTerminal && u == FFNode::Follow(r.right[i]) && (
                                (crate::first_follow_set::first_run(r.right.skip(i + 1), crate::grammar::spec_empties(g.rules)).contains(node_letter(v)) && is_target(node_letter(v), v))
                                || (crate::first_follow_set::all_nullable(r.right.skip(i + 1), crate::grammar::spec_empties(g.rules)) && v == FFNode::Follow(r.left)));
                        }
                    }
                }
            }
        }
        assert(s.contains(FFNode::First(a)));
        lemma_reach_in_closed(ff_rel(g), FFNode::First(a), FFNode::Sym(t), s);
    }
}

/// With a well formed grammar and its FIRST/FOLLOW table, the LR(1) closure can work
/// with the productions.
pub proof fn lemma_context1(g: SpecGrammar, ff: &FirstFollowSet)
    requires
        g.wf(),
        ff.of_grammar(g),
    ensures
        context1_ok(g.rules, ff),
{
    let m = ff.first_set@;
    assert forall|x: SpecLetter| g.non_terminals.contains(x) implies has_entry(m, x) && has_rule_for(g.rules, x) by {
        let i = choose|i: int| 0 <= i < g.non_terminals.len() && g.non_terminals[i] == x;
        assert(keys_of(m)[i] == x);
        assert(m[i].0@ == x);
        assert(has_rule_for(g.rules, g.non_terminals[i]));
    }
    assert forall|k: int| 0 <= k < g.rules.len() implies #[trigger] rule_ok1(g.rules, m, g.rules[k]) by {
        let r = g.rules[k];
        assert(wf_rule(g, r));
        if r.right != seq![SpecLetter::Empty] {
            assert forall|i: int| 0 <= i < r.right.len() implies letter_ok(g.rules, m, #[trigger] r.right[i]) by {
                assert(declared_symbol(g, r.right[i]));
            }
        }
    }
    assert forall|i: int, j: int| 0 <= i < m.len() && 0 <= j < m[i].1@.len() implies (#[trigger] m[i].1@[j])@ is Terminal || m[i].1@[j]@ is Empty by {
        assert(keys_of(m)[i] == g.non_terminals[i]);
        assert(seq_view(m[i].1@).to_set() == spec_first_set(g, g.non_terminals[i]));
        assert(seq_view(m[i].1@)[j] == m[i].1@[j]@);
        assert(seq_view(m[i].1@).to_set().contains(m[i].1@[j]@));
        lemma_first_terminal(g, g.non_terminals[i], m[i].1@[j]@);
    }
}

/// The symbol after the dot of a good item is a symbol of the grammar.
pub proof fn lemma_good_symbol(g: SpecGrammar, m: Seq<(Letter, Vec<Letter>)>, a: SpecItem1)
    requires
        g.wf(),
        good1(g.rules, m).contains(a),
        a.y.len() > 0,
    ensures
        declared_symbol(g, a.y[0]),
{
    lemma_universe_item_letters(g.rules, m, a);
    let (k, p) = choose|k: int, p: int| 0 <= k < g.rules.len() && 0 <= p <= rule_body(g.rules[k]).len() && a == item_pos(g.rules[k], p, a.expected);
    let r = g.rules[k];
    assert(wf_rule(g, r));
    assert(rule_body(r).len() > 0);
    assert(r.right != seq![SpecLetter::Empty]);
    assert(a.y[0] == r.right[p]);
}

/// GO over the symbol after the dot of an item is not empty.
pub proof fn lemma_go1_nonempty(s: Set<SpecItem1>, rules: Seq<SpecRule>, m: Seq<(Letter, Vec<Letter>)>, a: SpecItem1)
    requires
        s.contains(a),
        a.y.len() > 0,
    ensures
        spec_go1(s, rules, m, a.y[0]).contains(spec_shift1(a)),
{
    assert(kernel1(s, a.y[0]).contains(spec_shift1(a)));
    crate::utils::lemma_least_closed_init(kernel1(s, a.y[0]), closure_edge1(rules, m), spec_shift1(a));
}

} // verus!

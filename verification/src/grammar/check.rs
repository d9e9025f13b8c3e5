use vstd::prelude::*;
use super::{Grammar, SpecGrammar, declared_symbol, wf_rule, has_rule_for};
use super::letter::{Letter, SpecLetter, seq_view, contains};
use super::rule::{Rule, SpecRule, rules_view};
use crate::first_follow_set::{node_count, edge_budget, lemma_edge_budget_mono};
use crate::slr1::origin_not_empty;

verus! {

/// Whether the symbols of `v` are distinct.
fn distinct_letters(v: &Vec<Letter>) -> (res: bool)
    ensures
        res == seq_view(v@).no_duplicates(),
{
    let ghost s = seq_view(v@);
    for i in 0..v.len()
        invariant
            s == seq_view(v@),
            forall|a: int, b: int| 0 <= a < i && 0 <= b < s.len() && a != b ==> s[a] != s[b],
    {
        for j in 0..v.len()
            invariant
                s == seq_view(v@),
                i < s.len(),
                forall|a: int, b: int| 0 <= a < i && 0 <= b < s.len() && a != b ==> s[a] != s[b],
                forall|b: int| 0 <= b < j && b != i ==> s[i as int] != s[b],
        {
            assert(s[i as int] == v@[i as int]@ && s[j as int] == v@[j as int]@);
            if j != i && v[i] == v[j] {
                return false;
            }
        }
    }
    true
}

/// Whether the production is well formed in `g`.
fn rule_ok(g: &Grammar, r: &Rule) -> (res: bool)
    ensures
        res == wf_rule(g@, r@),
{
    if !contains(&g.non_terminals, &r.left) || r.right.len() == 0 {
        return false;
    }
    if r.right.len() == 1 && r.right[0].is_empty() {
        assert(r@.right =~= seq![SpecLetter::Empty]);
        return true;
    }
    proof {
        if r@.right == seq![SpecLetter::Empty] {
            assert(r@.right[0] == r.right@[0]@);
        }
    }
    let ghost gv = g@;
    let ghost rv = r@;
    for i in 0..r.right.len()
        invariant
            gv == g@,
            rv == r@,
            rv.right.len() == r.right.len(),
            rv.right != seq![SpecLetter::Empty],
            forall|k: int| 0 <= k < i ==> declared_symbol(gv, #[trigger] rv.right[k]),
    {
        let x = &r.right[i];
        assert(rv.right[i as int] == x@);
        let ok = (x.is_non_terminal() && contains(&g.non_terminals, x)) || (x.is_terminal() && contains(&g.terminals, x));
        if !ok {
            assert(!declared_symbol(gv, rv.right[i as int]));
            return false;
        }
    }
    true
}

/// Whether some production of `rules` has `x` on its left side.
fn has_rule(rules: &Vec<Rule>, x: &Letter) -> (res: bool)
    ensures
        res == has_rule_for(rules_view(rules@), x@),
{
    for k in 0..rules.len()
        invariant
            forall|j: int| 0 <= j < k ==> (#[trigger] rules_view(rules@)[j]).left != x@,
    {
        assert(rules_view(rules@)[k as int] == rules@[k as int]@);
        if rules[k].left == *x {
            return true;
        }
    }
    false
}

/// Whether every production of `g` is well formed.
fn rules_ok(g: &Grammar) -> (res: bool)
    ensures
        res == forall|k: int| 0 <= k < g@.rules.len() ==> wf_rule(g@, #[trigger] g@.rules[k]),
{
    let ghost gv = g@;
    for k in 0..g.rules.len()
        invariant
            gv == g@,
            forall|j: int| 0 <= j < k ==> wf_rule(gv, #[trigger] gv.rules[j]),
    {
        assert(gv.rules[k as int] == g.rules@[k as int]@);
        if !rule_ok(g, &g.rules[k]) {
            return false;
        }
    }
    true
}

/// Whether every declared non terminal is one and has a production.
fn non_terminals_ok(g: &Grammar) -> (res: bool)
    ensures
        res == forall|i: int| 0 <= i < g@.non_terminals.len() ==> (#[trigger] g@.non_terminals[i]) is NonTerminal && has_rule_for(g@.rules, g@.non_terminals[i]),
{
    let ghost gv = g@;
    for i in 0..g.non_terminals.len()
        invariant
            gv == g@,
            forall|j: int| 0 <= j < i ==> (#[trigger] gv.non_terminals[j]) is NonTerminal && has_rule_for(gv.rules, gv.non_terminals[j]),
    {
        assert(gv.non_terminals[i as int] == g.non_terminals@[i as int]@);
        if !g.non_terminals[i].is_non_terminal() || !has_rule(&g.rules, &g.non_terminals[i]) {
            return false;
        }
    }
    true
}

/// Whether every declared terminal is one.
fn terminals_ok(g: &Grammar) -> (res: bool)
    ensures
        res == forall|i: int| 0 <= i < g@.terminals.len() ==> (#[trigger] g@.terminals[i]) is Terminal,
{
    let ghost gv = g@;
    for i in 0..g.terminals.len()
        invariant
            gv == g@,
            forall|j: int| 0 <= j < i ==> (#[trigger] gv.terminals[j]) is Terminal,
    {
        assert(gv.terminals[i as int] == g.terminals@[i as int]@);
        if !g.terminals[i].is_terminal() {
            return false;
        }
    }
    true
}

/// Whether the FIRST/FOLLOW graph of `g` can be numbered with `i32`.
fn size_ok(g: &Grammar) -> (res: bool)
    ensures
        res == (node_count(g@) + edge_budget(g@.rules) + 1 < i32::MAX),
{
    let ghost gv = g@;
    let limit: u64 = 0x7fff_ffff;
    proof {
        lemma_edge_budget_mono(gv.rules, 0);
    }
    if g.non_terminals.len() as u64 >= limit || g.terminals.len() as u64 >= limit {
        return false;
    }
    let nodes: u64 = 2 * (g.non_terminals.len() as u64) + (g.terminals.len() as u64) + 1;
    if nodes + 1 >= limit {
        return false;
    }
    let mut budget: u64 = 0;
    assert(gv.rules.take(0) =~= Seq::<SpecRule>::empty());
    for k in 0..g.rules.len()
        invariant
            gv == g@,
            nodes == node_count(gv),
            limit == 0x7fff_ffff,
            budget == edge_budget(gv.rules.take(k as int)),
            nodes + budget + 1 < limit,
    {
        assert(gv.rules.take(k + 1).drop_last() =~= gv.rules.take(k as int));
        assert(gv.rules.take(k + 1).last() == g.rules@[k as int]@);
        let l = g.rules[k].right.len() as u64;
        proof {
            lemma_edge_budget_mono(gv.rules, k + 1);
            lemma_edge_budget_mono(gv.rules, k as int);
        }
        if l >= limit {
            assert(l * (l + 1) >= l) by (nonlinear_arith) requires l >= 0;
            return false;
        }
        assert(l * (l + 1) < 0x8000_0000u64 * 0x8000_0000u64) by (nonlinear_arith) requires l < 0x7fff_ffff;
        let add = l * (l + 1);
        if nodes + budget + add + 1 >= limit {
            return false;
        }
        budget = budget + add;
    }
    assert(gv.rules.take(gv.rules.len() as int) =~= gv.rules);
    true
}

impl Grammar {
    /// Whether the analyses can work on the grammar: it is well formed and small enough
    /// for the numbering of the FIRST/FOLLOW graph.
    pub fn analyzable(&self) -> (res: bool)
        ensures
            res == (self@.wf() && node_count(self@) + edge_budget(self@.rules) + 1 < i32::MAX),
    {
        rules_ok(self) && contains(&self.non_terminals, &self.origin) && non_terminals_ok(self)
            && terminals_ok(self) && distinct_letters(&self.non_terminals)
            && distinct_letters(&self.terminals) && size_ok(self)
    }

    /// Whether no production of the start symbol derives the empty word directly.
    pub fn origin_productive(&self) -> (res: bool)
        ensures
            res == origin_not_empty(self@),
    {
        let ghost gv = self@;
        for k in 0..self.rules.len()
            invariant
                gv == self@,
                forall|j: int| 0 <= j < k && (#[trigger] gv.rules[j]).left == gv.origin ==> gv.rules[j].right != seq![SpecLetter::Empty],
        {
            let r = &self.rules[k];
            assert(gv.rules[k as int] == r@);
            assert(r@.right.len() == r.right.len());
            if r.left == self.origin && r.right.len() == 1 && r.right[0].is_empty() {
                assert(r@.right =~= seq![SpecLetter::Empty]);
                return false;
            }
            proof {
                if r@.right == seq![SpecLetter::Empty] {
                    assert(r@.right[0] == r.right@[0]@);
                }
            }
        }
        true
    }
}

} // verus!

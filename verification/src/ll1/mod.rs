use vstd::prelude::*;
use crate::grammar::letter::{Letter, SpecLetter, seq_view, contains};
use crate::grammar::rule::{Rule, SpecRule};
use crate::grammar::{Grammar, SpecGrammar, wf_rule, declared_symbol};
use crate::first_follow_set::{FirstFollowSet, spec_follow_set, spec_sentence_first, keys_of, has_entry, lookup, node_count, edge_budget};
use crate::ll_table::{LLTable, LLTableItem, SpecLLItem, ll_row_map, ll_put, ll_has};

verus! {

/// FIRST of the right side of a production, by the stored FIRST sets.
pub open spec fn rule_first(m: Seq<(Letter, Vec<Letter>)>, r: SpecRule) -> Set<SpecLetter> {
    spec_sentence_first(m, r.right)
}

/// The symbols on which an LL(1) parser expands by `r`: FIRST of its right side
/// without the empty word, and FOLLOW of its left side when the right side can vanish.
pub open spec fn select_set(g: SpecGrammar, m: Seq<(Letter, Vec<Letter>)>, r: SpecRule) -> Set<SpecLetter> {
    let f = rule_first(m, r);
    if f.contains(SpecLetter::Empty) {
        f.remove(SpecLetter::Empty).union(spec_follow_set(g, r.left))
    } else {
        f
    }
}

/// The grammar is LL(1): productions of one non terminal have disjoint select sets,
/// and FIRST and FOLLOW do not meet where a right side can vanish.
pub open spec fn ll1_ok(g: SpecGrammar, m: Seq<(Letter, Vec<Letter>)>) -> bool {
    &&& forall|i: int, j: int, x: SpecLetter|
        0 <= i < j < g.rules.len() && g.rules[i].left == g.rules[j].left && #[trigger] select_set(g, m, g.rules[i]).contains(x)
            ==> !#[trigger] select_set(g, m, g.rules[j]).contains(x)
    &&& forall|i: int, x: SpecLetter|
        0 <= i < g.rules.len() && rule_first(m, g.rules[i]).contains(SpecLetter::Empty) && #[trigger] rule_first(m, g.rules[i]).contains(x)
            && x != SpecLetter::Empty ==> !spec_follow_set(g, g.rules[i].left).contains(x)
}

/// The FOLLOW set of the non terminal `x` as the table stores it.
fn follow_of_ll<'a>(g: &Grammar, ff: &'a FirstFollowSet, x: &Letter) -> (res: &'a Vec<Letter>)
    requires
        ff.of_grammar(g@),
        g@.non_terminals.contains(x@),
    ensures
        seq_view(res@).to_set() == spec_follow_set(g@, x@),
        seq_view(res@).no_duplicates(),
{
    proof {
        let i = choose|i: int| 0 <= i < g@.non_terminals.len() && g@.non_terminals[i] == x@;
        assert(keys_of(ff.follow_set@)[i] == x@);
        assert(ff.follow_set@[i].0@ == x@);
        assert(has_entry(ff.follow_set@, x@));
    }
    let r = lookup(&ff.follow_set, x);
    proof {
        assert(keys_of(ff.follow_set@)[r as int] == x@);
        assert(seq_view(ff.follow_set@[r as int].1@).to_set() == spec_follow_set(g@, g@.non_terminals[r as int]));
    }
    &ff.follow_set[r].1
}

/// FIRST of the right side of the `k`-th production.
fn first_of_rule(g: &Grammar, ff: &FirstFollowSet, k: usize) -> (res: Vec<Letter>)
    requires
        g@.wf(),
        ff.of_grammar(g@),
        k < g@.rules.len(),
    ensures
        seq_view(res@).to_set() == rule_first(ff.first_set@, g@.rules[k as int]),
        seq_view(res@).no_duplicates(),
{
    let s = g.rules[k].right_sentence();
    proof {
        let r = g@.rules[k as int];
        assert(g.rules@[k as int]@ == r);
        assert(wf_rule(g@, r));
        assert forall|i: int| 0 <= i < s@.len() && (#[trigger] s@[i]) is NonTerminal implies has_entry(ff.first_set@, s@[i]) by {
            if r.right != seq![SpecLetter::Empty] {
                assert(declared_symbol(g@, r.right[i]));
                let j = choose|j: int| 0 <= j < g@.non_terminals.len() && g@.non_terminals[j] == s@[i];
                assert(keys_of(ff.first_set@)[j] == s@[i]);
                assert(ff.first_set@[j].0@ == s@[i]);
            }
        }
        if r.right != seq![SpecLetter::Empty] {
            assert forall|i: int| 0 <= i < s@.len() implies !((#[trigger] s@[i]) is Empty) by {
                assert(declared_symbol(g@, r.right[i]));
            }
        }
    }
    ff.first_set_of_sentence(&s)
}

/// The facts of the check for the productions of `nt` before index `k`: `h` holds their
/// select sets, and what was found so far is free of conflicts.
pub open spec fn ll1_prefix_ok(g: SpecGrammar, m: Seq<(Letter, Vec<Letter>)>, nt: SpecLetter, k: int) -> bool {
    &&& forall|i: int, j: int, x: SpecLetter|
        0 <= i < j < k && g.rules[i].left == nt && g.rules[j].left == nt && #[trigger] select_set(g, m, g.rules[i]).contains(x)
            ==> !#[trigger] select_set(g, m, g.rules[j]).contains(x)
    &&& forall|i: int, x: SpecLetter|
        0 <= i < k && g.rules[i].left == nt && rule_first(m, g.rules[i]).contains(SpecLetter::Empty) && #[trigger] rule_first(m, g.rules[i]).contains(x)
            && x != SpecLetter::Empty ==> !spec_follow_set(g, nt).contains(x)
}

/// Whether the productions of `nt` are free of LL(1) conflicts.
fn ll1_group_ok(g: &Grammar, ff: &FirstFollowSet, nt: &Letter) -> (res: bool)
    requires
        g@.wf(),
        ff.of_grammar(g@),
        g@.non_terminals.contains(nt@),
    ensures
        res == ll1_prefix_ok(g@, ff.first_set@, nt@, g@.rules.len() as int),
{
    let ghost m = ff.first_set@;
    let ghost gs = g@;
    let fol = follow_of_ll(g, ff, nt);
    let mut h: Vec<Letter> = Vec::new();
    proof {
        assert(seq_view(h@).to_set() =~= Set::new(|x: SpecLetter| exists|j: int| 0 <= j < 0 && gs.rules[j].left == nt@ && #[trigger] select_set(gs, m, gs.rules[j]).contains(x)));
    }
    for k in 0..g.rules.len()
        invariant
            gs == g@,
            m == ff.first_set@,
            g@.wf(),
            ff.of_grammar(g@),
            seq_view(fol@).to_set() == spec_follow_set(gs, nt@),
            seq_view(fol@).no_duplicates(),
            seq_view(h@).no_duplicates(),
            seq_view(h@).to_set() == Set::new(|x: SpecLetter| exists|j: int| 0 <= j < k && gs.rules[j].left == nt@ && #[trigger] select_set(gs, m, gs.rules[j]).contains(x)),
            ll1_prefix_ok(gs, m, nt@, k as int),
    {
        let ghost r = gs.rules[k as int];
        assert(g.rules@[k as int]@ == r);
        let ghost h0 = seq_view(h@).to_set();
        if g.rules[k].left == *nt {
            let f = first_of_rule(g, ff, k);
            let ghost fs = rule_first(m, r);
            let mut i: usize = 0;
            while i < f.len()
                invariant
                    0 <= i <= f@.len(),
                    gs == g@,
                    m == ff.first_set@,
                    k < gs.rules.len(),
                    r == gs.rules[k as int],
                    r.left == nt@,
                    fs == rule_first(m, r),
                    ll1_prefix_ok(gs, m, nt@, k as int),
                    h0 == Set::new(|x: SpecLetter| exists|j: int| 0 <= j < k && gs.rules[j].left == nt@ && #[trigger] select_set(gs, m, gs.rules[j]).contains(x)),
                    seq_view(f@).to_set() == fs,
                    seq_view(f@).no_duplicates(),
                    seq_view(h@).no_duplicates(),
                    forall|x: SpecLetter| seq_view(h@).to_set().contains(x) <==> h0.contains(x) || (x != SpecLetter::Empty && seq_view(f@).take(i as int).contains(x)),
                    forall|x: SpecLetter| h0.contains(x) ==> !(x != SpecLetter::Empty && seq_view(f@).take(i as int).contains(x)),
                decreases f@.len() - i,
            {
                let ghost x = f@[i as int]@;
                let ghost hprev = seq_view(h@).to_set();
                assert(forall|y: SpecLetter| hprev.contains(y) <==> h0.contains(y) || (y != SpecLetter::Empty && seq_view(f@).take(i as int).contains(y)));
                assert(seq_view(f@)[i as int] == x);
                assert(fs.contains(x));
                if !f[i].is_empty() {
                    if contains(&h, &f[i]) {
                        proof {
                            assert(seq_view(h@).to_set().contains(x));
                            if h0.contains(x) {
                                let j = choose|j: int| 0 <= j < k && gs.rules[j].left == nt@ && #[trigger] select_set(gs, m, gs.rules[j]).contains(x);
                                assert(select_set(gs, m, r).contains(x));
                                assert(select_set(gs, m, gs.rules[j]).contains(x) && select_set(gs, m, gs.rules[k as int]).contains(x));
                                assert(!ll1_prefix_ok(gs, m, nt@, gs.rules.len() as int));
                            } else {
                                let i2 = choose|i2: int| 0 <= i2 < i && seq_view(f@).take(i as int)[i2] == x;
                                assert(seq_view(f@)[i2] == seq_view(f@)[i as int]);
                            }
                        }
                        return false;
                    }
                    let ghost hb = h@;
                    h.push(f[i].clone());
                    proof {
                        crate::grammar::letter::lemma_seq_view_push(hb, f@[i as int]);
                        crate::utils::lemma_push_no_dup(seq_view(hb), x);
                        seq_view(hb).lemma_push_to_set_commute(x);
                    }
                }
                proof {
                    broadcast use vstd::seq_lib::lemma_seq_contains_after_push;
                    assert(seq_view(f@).take(i + 1) =~= seq_view(f@).take(i as int).push(x));
                    assert forall|y: SpecLetter| h0.contains(y) implies !(y != SpecLetter::Empty && seq_view(f@).take(i + 1).contains(y)) by {
                        if y == x && y != SpecLetter::Empty {
                            let j = choose|j: int| 0 <= j < k && gs.rules[j].left == nt@ && #[trigger] select_set(gs, m, gs.rules[j]).contains(y);
                            assert(select_set(gs, m, r).contains(y));
                        }
                    }
                    assert(x != SpecLetter::Empty ==> seq_view(h@).to_set() == hprev.insert(x));
                    assert(x == SpecLetter::Empty ==> seq_view(h@).to_set() == hprev);
                    assert forall|y: SpecLetter| seq_view(h@).to_set().contains(y) <==> h0.contains(y) || (y != SpecLetter::Empty && seq_view(f@).take(i + 1).contains(y)) by {
                        assert(seq_view(f@).take(i + 1).contains(y) <==> seq_view(f@).take(i as int).contains(y) || y == x);
                    }
                }
                i = i + 1;
            }
            assert(i == f@.len());
            assert(seq_view(f@).take(i as int) =~= seq_view(f@));
            assert(forall|y: SpecLetter| seq_view(h@).to_set().contains(y) <==> h0.contains(y) || (y != SpecLetter::Empty && seq_view(f@).contains(y)));
            let has_empty = contains(&f, &Letter::Empty);
            assert(has_empty == fs.contains(SpecLetter::Empty));
            let ghost h1 = h0.union(fs.remove(SpecLetter::Empty));
            assert forall|x: SpecLetter| h1.contains(x) <==> h0.contains(x) || (x != SpecLetter::Empty && fs.contains(x)) by {}
            assert forall|x: SpecLetter| seq_view(h@).to_set().contains(x) <==> h1.contains(x) by {
                if fs.contains(x) {
                    assert(seq_view(f@).to_set().contains(x));
                }
                if seq_view(f@).contains(x) {
                    assert(seq_view(f@).to_set().contains(x));
                }
            }
            assert(seq_view(h@).to_set() =~= h1);
            if has_empty {
                for i in 0..fol.len()
                    invariant
                        gs == g@,
                        m == ff.first_set@,
                        k < gs.rules.len(),
                        r == gs.rules[k as int],
                        r.left == nt@,
                        fs == rule_first(m, r),
                        fs.contains(SpecLetter::Empty),
                        ll1_prefix_ok(gs, m, nt@, k as int),
                        h0 == Set::new(|x: SpecLetter| exists|j: int| 0 <= j < k && gs.rules[j].left == nt@ && #[trigger] select_set(gs, m, gs.rules[j]).contains(x)),
                        forall|x: SpecLetter| h1.contains(x) <==> h0.contains(x) || (x != SpecLetter::Empty && fs.contains(x)),
                        seq_view(fol@).to_set() == spec_follow_set(gs, nt@),
                        seq_view(fol@).no_duplicates(),
                        seq_view(h@).no_duplicates(),
                        forall|x: SpecLetter| seq_view(h@).to_set().contains(x) <==> h1.contains(x) || seq_view(fol@).take(i as int).contains(x),
                        forall|x: SpecLetter| h1.contains(x) ==> !seq_view(fol@).take(i as int).contains(x),
                {
                    let ghost x = fol@[i as int]@;
                    let ghost hprev = seq_view(h@).to_set();
                    assert(forall|y: SpecLetter| hprev.contains(y) <==> h1.contains(y) || seq_view(fol@).take(i as int).contains(y));
                    assert(seq_view(fol@)[i as int] == x);
                    assert(spec_follow_set(gs, nt@).contains(x));
                    if contains(&h, &fol[i]) {
                        proof {
                            assert(seq_view(h@).to_set().contains(x));
                            if h1.contains(x) {
                                if h0.contains(x) {
                                    let j = choose|j: int| 0 <= j < k && gs.rules[j].left == nt@ && #[trigger] select_set(gs, m, gs.rules[j]).contains(x);
                                    assert(select_set(gs, m, r).contains(x));
                                    assert(select_set(gs, m, gs.rules[j]).contains(x) && select_set(gs, m, gs.rules[k as int]).contains(x));
                                } else {
                                    assert(fs.contains(x) && x != SpecLetter::Empty);
                                    assert(rule_first(m, gs.rules[k as int]).contains(x));
                                }
                                assert(!ll1_prefix_ok(gs, m, nt@, gs.rules.len() as int));
                            } else {
                                let i2 = choose|i2: int| 0 <= i2 < i && seq_view(fol@).take(i as int)[i2] == x;
                                assert(seq_view(fol@)[i2] == seq_view(fol@)[i as int]);
                            }
                        }
                        return false;
                    }
                    let ghost hb = h@;
                    h.push(fol[i].clone());
                    proof {
                        crate::grammar::letter::lemma_seq_view_push(hb, fol@[i as int]);
                        crate::utils::lemma_push_no_dup(seq_view(hb), x);
                        seq_view(hb).lemma_push_to_set_commute(x);
                        broadcast use vstd::seq_lib::lemma_seq_contains_after_push;
                        assert(seq_view(fol@).take(i + 1) =~= seq_view(fol@).take(i as int).push(x));
                        assert(seq_view(h@).to_set() == hprev.insert(x));
                        assert forall|y: SpecLetter| seq_view(h@).to_set().contains(y) <==> h1.contains(y) || seq_view(fol@).take(i + 1).contains(y) by {
                            assert(seq_view(fol@).take(i + 1).contains(y) <==> seq_view(fol@).take(i as int).contains(y) || y == x);
                        }
                        assert forall|y: SpecLetter| h1.contains(y) implies !seq_view(fol@).take(i + 1).contains(y) by {
                            assert(seq_view(fol@).take(i + 1).contains(y) <==> seq_view(fol@).take(i as int).contains(y) || y == x);
                        }
                    }
                }
                assert(seq_view(fol@).take(fol@.len() as int) =~= seq_view(fol@));
            }
            proof {
                let news = Set::new(|x: SpecLetter| exists|j: int| 0 <= j < k + 1 && gs.rules[j].left == nt@ && #[trigger] select_set(gs, m, gs.rules[j]).contains(x));
                assert forall|x: SpecLetter| seq_view(h@).to_set().contains(x) <==> news.contains(x) by {
                    if seq_view(h@).to_set().contains(x) && !h0.contains(x) {
                        assert(select_set(gs, m, gs.rules[k as int]).contains(x));
                    }
                    if news.contains(x) && !h0.contains(x) {
                        let j = choose|j: int| 0 <= j < k + 1 && gs.rules[j].left == nt@ && #[trigger] select_set(gs, m, gs.rules[j]).contains(x);
                        assert(j == k);
                    }
                }
                assert(seq_view(h@).to_set() =~= news);
                assert forall|i: int, j: int, x: SpecLetter|
                    0 <= i < j < k + 1 && gs.rules[i].left == nt@ && gs.rules[j].left == nt@ && #[trigger] select_set(gs, m, gs.rules[i]).contains(x)
                        implies !#[trigger] select_set(gs, m, gs.rules[j]).contains(x) by {
                    if j == k && select_set(gs, m, gs.rules[j]).contains(x) {
                        assert(h0.contains(x));
                        assert(seq_view(h@).to_set().contains(x));
                    }
                }
            }
        } else {
            proof {
                assert(seq_view(h@).to_set() =~= Set::new(
                    |x: SpecLetter| exists|j: int| 0 <= j < k + 1 && gs.rules[j].left == nt@ && #[trigger] select_set(gs, m, gs.rules[j]).contains(x),
                ));
            }
        }
    }
    true
}

/// Whether the grammar is LL(1), by its FIRST and FOLLOW sets.
fn is_ll1_grammar_helper(g: &Grammar, ff: &FirstFollowSet) -> (res: bool)
    requires
        g@.wf(),
        ff.of_grammar(g@),
    ensures
        res == ll1_ok(g@, ff.first_set@),
{
    let ghost gs = g@;
    let ghost m = ff.first_set@;
    for n in 0..g.non_terminals.len()
        invariant
            gs == g@,
            m == ff.first_set@,
            g@.wf(),
            ff.of_grammar(g@),
            forall|a: int| 0 <= a < n ==> #[trigger] ll1_prefix_ok(gs, m, gs.non_terminals[a], gs.rules.len() as int),
    {
        assert(gs.non_terminals.contains(gs.non_terminals[n as int]));
        if !ll1_group_ok(g, ff, &g.non_terminals[n]) {
            proof {
                let nt = gs.non_terminals[n as int];
                assert(!ll1_prefix_ok(gs, m, nt, gs.rules.len() as int));
            }
            return false;
        }
    }
    proof {
        assert forall|i: int, j: int, x: SpecLetter|
            0 <= i < j < gs.rules.len() && gs.rules[i].left == gs.rules[j].left && #[trigger] select_set(gs, m, gs.rules[i]).contains(x)
                implies !#[trigger] select_set(gs, m, gs.rules[j]).contains(x) by {
            assert(wf_rule(gs, gs.rules[i]));
            let a = choose|a: int| 0 <= a < gs.non_terminals.len() && gs.non_terminals[a] == gs.rules[i].left;
            assert(ll1_prefix_ok(gs, m, gs.non_terminals[a], gs.rules.len() as int));
        }
        assert forall|i: int, x: SpecLetter|
            0 <= i < gs.rules.len() && rule_first(m, gs.rules[i]).contains(SpecLetter::Empty) && #[trigger] rule_first(m, gs.rules[i]).contains(x)
                && x != SpecLetter::Empty implies !spec_follow_set(gs, gs.rules[i].left).contains(x) by {
            assert(wf_rule(gs, gs.rules[i]));
            let a = choose|a: int| 0 <= a < gs.non_terminals.len() && gs.non_terminals[a] == gs.rules[i].left;
            assert(ll1_prefix_ok(gs, m, gs.non_terminals[a], gs.rules.len() as int));
        }
    }
    true
}

/// Whether the grammar is LL(1).
pub fn is_ll1_grammar(g: &Grammar) -> (res: bool)
    requires
        g@.wf(),
        node_count(g@) + edge_budget(g@.rules) + 1 < i32::MAX,
    ensures
        exists|ff: FirstFollowSet| ff.of_grammar(g@) && res == ll1_ok(g@, ff.first_set@),
{
    let ff = FirstFollowSet::from_grammar(g);
    let res = is_ll1_grammar_helper(g, &ff);
    assert(ff.of_grammar(g@) && res == ll1_ok(g@, ff.first_set@));
    res
}

/// Whether production `k` of `g` is selected for `a` on `x`.
pub open spec fn selects(g: SpecGrammar, m: Seq<(Letter, Vec<Letter>)>, a: SpecLetter, k: int, x: SpecLetter) -> bool {
    0 <= k < g.rules.len() && g.rules[k].left == a && select_set(g, m, g.rules[k]).contains(x)
}

/// The LL(1) entry for non terminal `a` and symbol `x`: the production selected on `x`,
/// else none.
pub open spec fn ll_entry(g: SpecGrammar, m: Seq<(Letter, Vec<Letter>)>, a: SpecLetter, x: SpecLetter) -> SpecLLItem {
    if exists|k: int| #[trigger] selects(g, m, a, k, x) {
        SpecLLItem::Action(g.rules[choose|k: int| #[trigger] selects(g, m, a, k, x)])
    } else {
        SpecLLItem::Error
    }
}

/// The LL(1) row of non terminal `a`: every terminal, the end marker and every selected symbol.
pub open spec fn ll_row_spec(g: SpecGrammar, m: Seq<(Letter, Vec<Letter>)>, a: SpecLetter) -> Map<SpecLetter, SpecLLItem> {
    Map::new(
        |x: SpecLetter| crate::lr0::action_keys(g, x) || exists|k: int| #[trigger] selects(g, m, a, k, x),
        |x: SpecLetter| ll_entry(g, m, a, x),
    )
}

/// The LL(1) table of the grammar: one row per non terminal, in order.
pub open spec fn ll_table_of(t: &LLTable, g: SpecGrammar, m: Seq<(Letter, Vec<Letter>)>) -> bool {
    &&& t.keys() == g.non_terminals
    &&& forall|i: int| 0 <= i < g.non_terminals.len() ==> #[trigger] t.row(i) == ll_row_spec(g, m, g.non_terminals[i])
}

proof fn lemma_selects_unique(g: SpecGrammar, m: Seq<(Letter, Vec<Letter>)>, a: SpecLetter, j: int, k: int, x: SpecLetter)
    requires
        ll1_ok(g, m),
        selects(g, m, a, j, x),
        selects(g, m, a, k, x),
    ensures
        j == k,
{
    if j < k {
        assert(select_set(g, m, g.rules[j]).contains(x) && select_set(g, m, g.rules[k]).contains(x));
    } else if k < j {
        assert(select_set(g, m, g.rules[k]).contains(x) && select_set(g, m, g.rules[j]).contains(x));
    }
}

/// The LL(1) row of `nt`.
#[verifier::rlimit(40)]
fn ll_row_of(g: &Grammar, ff: &FirstFollowSet, nt: &Letter) -> (res: Vec<(Letter, LLTableItem)>)
    requires
        g@.wf(),
        ff.of_grammar(g@),
        ll1_ok(g@, ff.first_set@),
        g@.non_terminals.contains(nt@),
    ensures
        ll_row_map(res@) == ll_row_spec(g@, ff.first_set@, nt@),
{
    let ghost m = ff.first_set@;
    let ghost gs = g@;
    let ghost a = nt@;
    let fol = follow_of_ll(g, ff, nt);
    let mut row: Vec<(Letter, LLTableItem)> = Vec::new();
    for k in 0..g.rules.len()
        invariant
            gs == g@,
            m == ff.first_set@,
            a == nt@,
            g@.wf(),
            ff.of_grammar(g@),
            ll1_ok(gs, m),
            seq_view(fol@).to_set() == spec_follow_set(gs, a),
            forall|x: SpecLetter| ll_row_map(row@).dom().contains(x) <==> exists|j: int| 0 <= j < k && #[trigger] selects(gs, m, a, j, x),
            forall|x: SpecLetter, j: int| 0 <= j < k && #[trigger] selects(gs, m, a, j, x) ==> ll_row_map(row@)[x] == SpecLLItem::Action(gs.rules[j]),
    {
        let ghost r = gs.rules[k as int];
        assert(g.rules@[k as int]@ == r);
        if g.rules[k].left == *nt {
            let f = first_of_rule(g, ff, k);
            let ghost fs = rule_first(m, r);
            let ghost base = ll_row_map(row@);
            let mut i: usize = 0;
            while i < f.len()
                invariant
                    0 <= i <= f@.len(),
                    gs == g@,
                    m == ff.first_set@,
                    k < gs.rules.len(),
                    r == gs.rules[k as int],
                    g.rules@[k as int]@ == r,
                    r.left == a,
                    ll1_ok(gs, m),
                    fs == rule_first(m, r),
                    seq_view(f@).to_set() == fs,
                    forall|x: SpecLetter| base.dom().contains(x) <==> exists|j: int| 0 <= j < k && #[trigger] selects(gs, m, a, j, x),
                    forall|x: SpecLetter, j: int| 0 <= j < k && #[trigger] selects(gs, m, a, j, x) ==> base[x] == SpecLLItem::Action(gs.rules[j]),
                    ll_row_map(row@) == Map::new(
                        |x: SpecLetter| base.dom().contains(x) || (x != SpecLetter::Empty && seq_view(f@).take(i as int).contains(x)),
                        |x: SpecLetter| if x != SpecLetter::Empty && seq_view(f@).take(i as int).contains(x) { SpecLLItem::Action(r) } else { base[x] },
                    ),
                decreases f@.len() - i,
            {
                let ghost x = f@[i as int]@;
                assert(seq_view(f@)[i as int] == x);
                if !f[i].is_empty() {
                    ll_put(&mut row, f[i].clone(), LLTableItem::Action(g.rules[k].clone()));
                }
                proof {
                    broadcast use vstd::seq_lib::lemma_seq_contains_after_push;
                    assert(seq_view(f@).take(i + 1) =~= seq_view(f@).take(i as int).push(x));
                    assert(ll_row_map(row@) =~= Map::new(
                        |y: SpecLetter| base.dom().contains(y) || (y != SpecLetter::Empty && seq_view(f@).take(i + 1).contains(y)),
                        |y: SpecLetter| if y != SpecLetter::Empty && seq_view(f@).take(i + 1).contains(y) { SpecLLItem::Action(r) } else { base[y] },
                    ));
                }
                i = i + 1;
            }
            assert(seq_view(f@).take(i as int) =~= seq_view(f@));
            let has_empty = contains(&f, &Letter::Empty);
            assert(has_empty == fs.contains(SpecLetter::Empty));
            let ghost mid = ll_row_map(row@);
            if has_empty {
                let mut i: usize = 0;
                while i < fol.len()
                    invariant
                        0 <= i <= fol@.len(),
                        gs == g@,
                        k < gs.rules.len(),
                        r == gs.rules[k as int],
                        g.rules@[k as int]@ == r,
                        ll_row_map(row@) == Map::new(
                            |x: SpecLetter| mid.dom().contains(x) || seq_view(fol@).take(i as int).contains(x),
                            |x: SpecLetter| if seq_view(fol@).take(i as int).contains(x) { SpecLLItem::Action(r) } else { mid[x] },
                        ),
                    decreases fol@.len() - i,
                {
                    let ghost x = fol@[i as int]@;
                    assert(seq_view(fol@)[i as int] == x);
                    ll_put(&mut row, fol[i].clone(), LLTableItem::Action(g.rules[k].clone()));
                    proof {
                        broadcast use vstd::seq_lib::lemma_seq_contains_after_push;
                        assert(seq_view(fol@).take(i + 1) =~= seq_view(fol@).take(i as int).push(x));
                        assert(ll_row_map(row@) =~= Map::new(
                            |y: SpecLetter| mid.dom().contains(y) || seq_view(fol@).take(i + 1).contains(y),
                            |y: SpecLetter| if seq_view(fol@).take(i + 1).contains(y) { SpecLLItem::Action(r) } else { mid[y] },
                        ));
                    }
                    i = i + 1;
                }
                assert(seq_view(fol@).take(i as int) =~= seq_view(fol@));
            }
            proof {
                let sel = select_set(gs, m, r);
                assert forall|x: SpecLetter| (x != SpecLetter::Empty && seq_view(f@).contains(x)) || (has_empty && seq_view(fol@).contains(x)) <==> sel.contains(x) by {
                    if seq_view(f@).contains(x) {
                        assert(seq_view(f@).to_set().contains(x));
                    }
                    if fs.contains(x) {
                        assert(seq_view(f@).to_set().contains(x));
                    }
                    if seq_view(fol@).contains(x) {
                        assert(seq_view(fol@).to_set().contains(x));
                    }
                    if spec_follow_set(gs, a).contains(x) {
                        assert(seq_view(fol@).to_set().contains(x));
                    }
                }
                assert forall|x: SpecLetter| ll_row_map(row@).dom().contains(x) <==> exists|j: int| 0 <= j < k + 1 && #[trigger] selects(gs, m, a, j, x) by {
                    if sel.contains(x) {
                        assert(selects(gs, m, a, k as int, x));
                    }
                    if exists|j: int| 0 <= j < k + 1 && #[trigger] selects(gs, m, a, j, x) {
                        let j = choose|j: int| 0 <= j < k + 1 && #[trigger] selects(gs, m, a, j, x);
                        if j < k {
                            assert(base.dom().contains(x));
                        }
                    }
                }
                assert forall|x: SpecLetter, j: int| 0 <= j < k + 1 && #[trigger] selects(gs, m, a, j, x) implies ll_row_map(row@)[x] == SpecLLItem::Action(gs.rules[j]) by {
                    if j < k {
                        if sel.contains(x) {
                            assert(selects(gs, m, a, k as int, x));
                            lemma_selects_unique(gs, m, a, j, k as int, x);
                        }
                    }
                }
            }
        } else {
            proof {
                assert forall|x: SpecLetter| ll_row_map(row@).dom().contains(x) <==> exists|j: int| 0 <= j < k + 1 && #[trigger] selects(gs, m, a, j, x) by {
                    if exists|j: int| 0 <= j < k + 1 && #[trigger] selects(gs, m, a, j, x) {
                        let j = choose|j: int| 0 <= j < k + 1 && #[trigger] selects(gs, m, a, j, x);
                        assert(j != k);
                    }
                }
            }
        }
    }
    let ghost base = ll_row_map(row@);
    proof {
        assert forall|x: SpecLetter| base.dom().contains(x) implies base[x] == ll_entry(gs, m, a, x) by {
            let j = choose|j: int| 0 <= j < gs.rules.len() && #[trigger] selects(gs, m, a, j, x);
            let c = choose|k: int| #[trigger] selects(gs, m, a, k, x);
            lemma_selects_unique(gs, m, a, j, c, x);
        }
    }
    for k in 0..g.terminals.len()
        invariant
            gs == g@,
            m == ff.first_set@,
            a == nt@,
            forall|x: SpecLetter| base.dom().contains(x) <==> exists|j: int| 0 <= j < gs.rules.len() && #[trigger] selects(gs, m, a, j, x),
            forall|x: SpecLetter| base.dom().contains(x) ==> base[x] == ll_entry(gs, m, a, x),
            ll_row_map(row@) == Map::new(
                |x: SpecLetter| base.dom().contains(x) || gs.terminals.take(k as int).contains(x),
                |x: SpecLetter| ll_entry(gs, m, a, x),
            ),
    {
        let t = &g.terminals[k];
        assert(t@ == gs.terminals[k as int]);
        proof {
            broadcast use vstd::seq_lib::lemma_seq_contains_after_push;
            assert(gs.terminals.take(k + 1) =~= gs.terminals.take(k as int).push(t@));
        }
        if !ll_has(&row, t) {
            assert(!exists|j: int| #[trigger] selects(gs, m, a, j, t@));
            ll_put(&mut row, t.clone(), LLTableItem::Error);
        }
        assert(ll_row_map(row@) =~= Map::new(
            |x: SpecLetter| base.dom().contains(x) || gs.terminals.take(k + 1).contains(x),
            |x: SpecLetter| ll_entry(gs, m, a, x),
        ));
    }
    assert(gs.terminals.take(gs.terminals.len() as int) =~= gs.terminals);
    let ghost m1 = ll_row_map(row@);
    let end = Letter::EndSign;
    if !ll_has(&row, &end) {
        assert(!exists|j: int| #[trigger] selects(gs, m, a, j, SpecLetter::EndSign));
        ll_put(&mut row, end, LLTableItem::Error);
        assert(ll_row_map(row@) == m1.insert(SpecLetter::EndSign, SpecLLItem::Error));
    } else {
        assert(ll_row_map(row@) == m1);
    }
    proof {
        let m2 = ll_row_map(row@);
        let want = ll_row_spec(gs, m, a);
        assert forall|x: SpecLetter| m2.dom().contains(x) <==> want.dom().contains(x) by {
            if want.dom().contains(x) && x != SpecLetter::EndSign {
                if exists|j: int| #[trigger] selects(gs, m, a, j, x) {
                    let j = choose|j: int| #[trigger] selects(gs, m, a, j, x);
                    assert(base.dom().contains(x));
                } else {
                    assert(gs.terminals.contains(x));
                }
                assert(m1.dom().contains(x));
            }
            if m2.dom().contains(x) && x != SpecLetter::EndSign {
                assert(m1.dom().contains(x));
                if base.dom().contains(x) {
                    let j = choose|j: int| 0 <= j < gs.rules.len() && #[trigger] selects(gs, m, a, j, x);
                }
            }
        }
        assert forall|x: SpecLetter| m2.dom().contains(x) implies m2[x] == want[x] by {
            if x != SpecLetter::EndSign {
                assert(m1.dom().contains(x));
            }
        }
        assert(m2 =~= want);
    }
    row
}

/// The LL(1) table of the grammar, or the message that the grammar is not LL(1).
pub fn ll_table_from_grammar(g: &Grammar) -> (res: Result<LLTable, String>)
    requires
        g@.wf(),
        node_count(g@) + edge_budget(g@.rules) + 1 < i32::MAX,
    ensures
        exists|ff: FirstFollowSet|
            ff.of_grammar(g@) && match res {
                Ok(t) => ll1_ok(g@, ff.first_set@) && ll_table_of(&t, g@, ff.first_set@),
                Err(e) => !ll1_ok(g@, ff.first_set@) && e@ == "not an LL(1) grammar"@,
            },
{
    let ff = FirstFollowSet::from_grammar(g);
    if !is_ll1_grammar_helper(g, &ff) {
        return Err(String::from_str("not an LL(1) grammar"));
    }
    let mut data: Vec<(Letter, Vec<(Letter, LLTableItem)>)> = Vec::new();
    for n in 0..g.non_terminals.len()
        invariant
            g@.wf(),
            ff.of_grammar(g@),
            ll1_ok(g@, ff.first_set@),
            data@.len() == n,
            forall|i: int| 0 <= i < n ==> (#[trigger] data@[i]).0@ == g@.non_terminals[i],
            forall|i: int| 0 <= i < n ==> ll_row_map((#[trigger] data@[i]).1@) == ll_row_spec(g@, ff.first_set@, g@.non_terminals[i]),
    {
        let nt = &g.non_terminals[n];
        assert(nt@ == g@.non_terminals[n as int]);
        assert(g@.non_terminals.contains(nt@));
        let row = ll_row_of(g, &ff, nt);
        data.push((nt.clone(), row));
    }
    let t = LLTable { data };
    assert(t.keys() =~= g@.non_terminals);
    assert(forall|i: int| 0 <= i < g@.non_terminals.len() ==> #[trigger] t.row(i) == ll_row_map(t.data@[i].1@));
    Ok(t)
}

/// Whether a grammar is LL(1) does not depend on which FIRST table of the grammar decides
/// it. So `is_ll1_grammar` answers true exactly when `ll_table_from_grammar` builds a table.
pub proof fn law_ll1_class_unique(g: SpecGrammar, ff1: &FirstFollowSet, ff2: &FirstFollowSet)
    requires
        g.wf(),
        ff1.of_grammar(g),
        ff2.of_grammar(g),
    ensures
        ll1_ok(g, ff1.first_set@) == ll1_ok(g, ff2.first_set@),
{
    let m1 = ff1.first_set@;
    let m2 = ff2.first_set@;
    assert forall|k: int| 0 <= k < g.rules.len() implies #[trigger] select_set(g, m1, g.rules[k]) == select_set(g, m2, g.rules[k])
        && rule_first(m1, g.rules[k]) == rule_first(m2, g.rules[k]) by {
        let r = g.rules[k];
        assert(crate::grammar::wf_rule(g, r));
        if !(r.right.len() == 1 && r.right[0] is Empty) {
            assert(r.right != seq![SpecLetter::Empty]) by {
                if r.right == seq![SpecLetter::Empty] {
                    assert(r.right.len() == 1 && r.right[0] is Empty);
                }
            }
            assert forall|i: int| 0 <= i < r.right.len() && (#[trigger] r.right[i]) is NonTerminal implies g.non_terminals.contains(r.right[i]) by {
                assert(crate::grammar::declared_symbol(g, r.right[i]));
            }
            crate::first_follow_set::lemma_sentence_first_agree(g, ff1, ff2, r.right);
        }
    }
    if ll1_ok(g, m1) {
        lemma_ll1_ok_transfer(g, m1, m2);
    }
    if ll1_ok(g, m2) {
        assert forall|k: int| 0 <= k < g.rules.len() implies #[trigger] select_set(g, m2, g.rules[k]) == select_set(g, m1, g.rules[k])
            && rule_first(m2, g.rules[k]) == rule_first(m1, g.rules[k]) by {
            assert(select_set(g, m1, g.rules[k]) == select_set(g, m2, g.rules[k]));
        }
        lemma_ll1_ok_transfer(g, m2, m1);
    }
}

/// Tables that give every production the same FIRST set decide LL(1) alike.
proof fn lemma_ll1_ok_transfer(g: SpecGrammar, m1: Seq<(Letter, Vec<Letter>)>, m2: Seq<(Letter, Vec<Letter>)>)
    requires
        forall|k: int| 0 <= k < g.rules.len() ==> #[trigger] select_set(g, m1, g.rules[k]) == select_set(g, m2, g.rules[k])
            && rule_first(m1, g.rules[k]) == rule_first(m2, g.rules[k]),
        ll1_ok(g, m1),
    ensures
        ll1_ok(g, m2),
{
    assert forall|i: int, j: int, x: SpecLetter|
        0 <= i < j < g.rules.len() && g.rules[i].left == g.rules[j].left && #[trigger] select_set(g, m2, g.rules[i]).contains(x)
        implies !#[trigger] select_set(g, m2, g.rules[j]).contains(x) by {
        assert(select_set(g, m1, g.rules[i]) == select_set(g, m2, g.rules[i]));
        assert(select_set(g, m1, g.rules[j]) == select_set(g, m2, g.rules[j]));
    }
    assert forall|i: int, x: SpecLetter|
        0 <= i < g.rules.len() && rule_first(m2, g.rules[i]).contains(SpecLetter::Empty) && #[trigger] rule_first(m2, g.rules[i]).contains(x)
            && x != SpecLetter::Empty implies !spec_follow_set(g, g.rules[i].left).contains(x) by {
        assert(select_set(g, m1, g.rules[i]) == select_set(g, m2, g.rules[i]));
    }
}

} // verus!

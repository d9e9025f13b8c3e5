use vstd::prelude::*;
use vstd::string::*;
use super::lr0_item::{LR0Item, SpecItem0, spec_item_at, spec_shift0, spec_item0_display, item0_order, lemma_item0_strict_total,
    compare_items0};
use crate::grammar::order::{strict_total, sorted_by, lemma_insert_sorted, lemma_same_multiset};
use crate::grammar::letter::{Letter, SpecLetter, seq_view};
use crate::grammar::rule::{Rule, SpecRule, rules_view};
use crate::grammar::{Grammar, SpecGrammar};
use crate::utils::{closed_under, least_closed, lemma_least_closed_init, lemma_least_closed_step, lemma_least_closed_eq,
    lemma_distinct_within_seq_len, lemma_push_no_dup};

verus! {

/// The items of a vector.
pub open spec fn items0_view(s: Seq<LR0Item>) -> Seq<SpecItem0> {
    s.map_values(|i: LR0Item| i@)
}

/// One closure step: an item with a non terminal `B` after the dot brings in the
/// items `B -> : ...` of `whole`.
pub open spec fn closure_edge0(whole: Set<SpecItem0>) -> spec_fn(SpecItem0, SpecItem0) -> bool {
    |a: SpecItem0, b: SpecItem0| a.y.len() > 0 && a.y[0] is NonTerminal && whole.contains(b) && b.left == a.y[0] && b.x.len() == 0
}

/// The LR(0) closure of `init` with respect to the items `whole`.
pub open spec fn spec_closure0(init: Set<SpecItem0>, whole: Set<SpecItem0>) -> Set<SpecItem0> {
    least_closed(init, closure_edge0(whole))
}

/// The items of `items` with `x` after the dot, the dot moved over it.
pub open spec fn kernel0(items: Set<SpecItem0>, x: SpecLetter) -> Set<SpecItem0> {
    Set::new(|it: SpecItem0| exists|a: SpecItem0| items.contains(a) && a.y.len() > 0 && a.y[0] == x && it == spec_shift0(a))
}

/// GO(items, x): the closure of the kernel of `items` over `x`.
pub open spec fn spec_go0(items: Set<SpecItem0>, whole: Set<SpecItem0>, x: SpecLetter) -> Set<SpecItem0> {
    spec_closure0(kernel0(items, x), whole)
}

/// The LR(0) items of one production: `A -> :` for `A -> .`, else one per dot position.
pub open spec fn rule_items0(r: SpecRule) -> Set<SpecItem0> {
    if r.right == seq![SpecLetter::Empty] {
        set![SpecItem0 { left: r.left, x: seq![], y: seq![] }]
    } else {
        Set::new(|it: SpecItem0| exists|p: int| 0 <= p <= r.right.len() && it == #[trigger] spec_item_at(r, p))
    }
}

/// The LR(0) items of one production in order, as a list.
pub open spec fn rule_item_list0(r: SpecRule) -> Seq<SpecItem0> {
    if r.right == seq![SpecLetter::Empty] {
        seq![SpecItem0 { left: r.left, x: seq![], y: seq![] }]
    } else {
        Seq::new((r.right.len() + 1) as nat, |p: int| spec_item_at(r, p))
    }
}

/// The LR(0) items of the productions, production after production, repeats kept.
pub open spec fn item_list0(rules: Seq<SpecRule>) -> Seq<SpecItem0>
    decreases rules.len(),
{
    if rules.len() == 0 {
        seq![]
    } else {
        item_list0(rules.drop_last()) + rule_item_list0(rules.last())
    }
}

/// Every LR(0) item of the productions.
pub open spec fn all_items0(rules: Seq<SpecRule>) -> Set<SpecItem0>
    decreases rules.len(),
{
    if rules.len() == 0 {
        Set::empty()
    } else {
        all_items0(rules.drop_last()).union(rule_items0(rules.last()))
    }
}

/// The items with the dot in front of each production of the start symbol.
pub open spec fn initial_items0(g: SpecGrammar) -> Set<SpecItem0> {
    Set::new(
        |it: SpecItem0| exists|k: int| 0 <= k < g.rules.len() && (#[trigger] g.rules[k]).left == g.origin && it == spec_item_at(g.rules[k], 0),
    )
}

/// The items with the dot in front of each production of `origin`, production after
/// production.
pub open spec fn initial_list0(rules: Seq<SpecRule>, origin: SpecLetter) -> Seq<SpecItem0>
    decreases rules.len(),
{
    if rules.len() == 0 {
        seq![]
    } else if rules.last().left == origin {
        initial_list0(rules.drop_last(), origin).push(spec_item_at(rules.last(), 0))
    } else {
        initial_list0(rules.drop_last(), origin)
    }
}

/// A set of LR(0) items.
#[derive(Debug)]
pub struct LR0ItemSet {
    pub items: Vec<LR0Item>,
}

impl View for LR0ItemSet {
    type V = Seq<SpecItem0>;

    open spec fn view(&self) -> Seq<SpecItem0> {
        items0_view(self.items@)
    }
}

/// Whether `it` occurs in `v`.
pub fn contains_item0(v: &Vec<LR0Item>, it: &LR0Item) -> (res: bool)
    ensures
        res == items0_view(v@).contains(it@),
{
    for i in 0..v.len()
        invariant
            forall|j: int| 0 <= j < i ==> v@[j]@ != it@,
    {
        if v[i] == *it {
            assert(items0_view(v@)[i as int] == it@);
            return true;
        }
    }
    proof {
        if items0_view(v@).contains(it@) {
            let j = choose|j: int| 0 <= j < items0_view(v@).len() && items0_view(v@)[j] == it@;
            assert(v@[j]@ == it@);
        }
    }
    false
}

pub proof fn lemma_items0_push(s: Seq<LR0Item>, it: LR0Item)
    ensures
        items0_view(s.push(it)) == items0_view(s).push(it@),
{
    assert(items0_view(s.push(it)) =~= items0_view(s).push(it@));
}

/// Sorts items into the order of `item0_lt`, keeping each of them as often as it occurs.
pub fn sort_items0(v: &Vec<LR0Item>) -> (res: Vec<LR0Item>)
    ensures
        items0_view(res@).to_multiset() == items0_view(v@).to_multiset(),
        sorted_by(items0_view(res@), item0_order()),
{
    proof {
        lemma_item0_strict_total();
    }
    let ghost o = item0_order();
    let mut out: Vec<LR0Item> = Vec::new();
    assert(items0_view(v@.take(0)) =~= items0_view(out@));
    for i in 0..v.len()
        invariant
            o == item0_order(),
            strict_total(o),
            items0_view(out@).to_multiset() == items0_view(v@.take(i as int)).to_multiset(),
            sorted_by(items0_view(out@), o),
    {
        let x = v[i].clone();
        let mut pos: usize = 0;
        loop
            invariant
                o == item0_order(),
                strict_total(o),
                pos <= out@.len(),
                forall|k: int| 0 <= k < pos ==> !o(x@, #[trigger] items0_view(out@)[k]),
            ensures
                pos <= out@.len(),
                forall|k: int| 0 <= k < pos ==> !o(x@, #[trigger] items0_view(out@)[k]),
                pos < out@.len() ==> o(x@, items0_view(out@)[pos as int]),
            decreases out@.len() - pos,
        {
            if pos == out.len() {
                break;
            }
            let r = compare_items0(&x, &out[pos]);
            assert(items0_view(out@)[pos as int] == out@[pos as int]@);
            if r < 0 {
                break;
            }
            proof {
                if r == 0 {
                    assert(!o(x@, x@));
                } else {
                    assert(o(out@[pos as int]@, x@));
                    if o(x@, out@[pos as int]@) {
                        assert(o(x@, x@));
                    }
                }
            }
            pos = pos + 1;
        }
        let ghost before = items0_view(out@);
        proof {
            lemma_insert_sorted(before, pos as int, x@, o);
            broadcast use vstd::seq_lib::group_to_multiset_ensures;
            assert(items0_view(v@.take(i + 1)) =~= items0_view(v@.take(i as int)).push(v@[i as int]@));
        }
        out.insert(pos, x);
        assert(items0_view(out@) =~= before.insert(pos as int, x@));
    }
    assert(v@.take(v@.len() as int) =~= v@);
    out
}

impl LR0ItemSet {
    pub fn new() -> (res: LR0ItemSet)
        ensures
            res@ == Seq::<SpecItem0>::empty(),
    {
        let res = LR0ItemSet { items: Vec::new() };
        assert(res@ =~= Seq::<SpecItem0>::empty());
        res
    }

    pub fn is_empty(&self) -> (res: bool)
        ensures
            res == (self@.len() == 0),
    {
        self.items.len() == 0
    }

    pub fn add_item(&mut self, item: LR0Item)
        ensures
            final(self)@ == old(self)@.push(item@),
    {
        let ghost old_items = self.items@;
        self.items.push(item);
        proof {
            lemma_items0_push(old_items, item);
        }
    }

    /// Every LR(0) item of the grammar's productions, each as often as its productions
    /// give it, in the order of `item0_lt`.
    pub fn from_grammar(grammar: &Grammar) -> (res: LR0ItemSet)
        ensures
            res@.to_set() == all_items0(grammar@.rules),
            res@.to_multiset() == item_list0(grammar@.rules).to_multiset(),
            sorted_by(res@, item0_order()),
    {
        let ghost rules = grammar@.rules;
        let mut ans = LR0ItemSet::new();
        assert(ans@ =~= item_list0(rules.take(0)));
        for k in 0..grammar.rules.len()
            invariant
                rules == grammar@.rules,
                ans@.to_set() == all_items0(rules.take(k as int)),
                ans@ == item_list0(rules.take(k as int)),
        {
            let rule = &grammar.rules[k];
            assert(rule@ == rules[k as int]);
            let ghost before = ans@;
            let ghost r = rules[k as int];
            assert(rules.take(k + 1).drop_last() =~= rules.take(k as int));
            assert(rules.take(k + 1).last() == r);
            if rule.right.len() == 1 && rule.right[0].is_empty() {
                assert(r.right =~= seq![SpecLetter::Empty]);
                ans.add_item(LR0Item::new_empty(rule.left.clone()));
                proof {
                    broadcast use vstd::seq_lib::lemma_seq_contains_after_push;
                    assert(ans@.to_set() =~= all_items0(rules.take(k + 1)));
                    assert(ans@ =~= item_list0(rules.take(k + 1)));
                }
            } else {
                assert(r.right != seq![SpecLetter::Empty]) by {
                    if r.right == seq![SpecLetter::Empty] {
                        assert(r.right.len() == 1);
                        assert(r.right[0] == rule.right@[0]@);
                    }
                }
                let n = rule.right.len();
                let mut p: usize = 0;
                let mut fin = false;
                let ghost mut cnt: int = 0;
                let ghost start = ans@;
                while !fin
                    invariant
                        rules == grammar@.rules,
                        r == rules[k as int],
                        r == rule@,
                        0 <= k < rules.len(),
                        r.right != seq![SpecLetter::Empty],
                        n == r.right.len(),
                        0 <= p <= n,
                        cnt == p + (if fin { 1int } else { 0int }),
                        fin ==> p == n,
                        ans@.to_set() == all_items0(rules.take(k as int)).union(
                            Set::new(|it: SpecItem0| exists|q: int| 0 <= q < cnt && it == #[trigger] spec_item_at(r, q)),
                        ),
                        start == item_list0(rules.take(k as int)),
                        ans@ == start + Seq::new(cnt as nat, |q: int| spec_item_at(r, q)),
                    decreases n - p + (if fin { 0int } else { 1int }),
                {
                    let ghost before = ans@;
                    ans.add_item(LR0Item::from_rule_and_position(rule, p));
                    proof {
                        before.lemma_push_to_set_commute(spec_item_at(r, p as int));
                        let olds = Set::new(|it: SpecItem0| exists|q: int| 0 <= q < p && it == #[trigger] spec_item_at(r, q));
                        let news = Set::new(|it: SpecItem0| exists|q: int| 0 <= q < p + 1 && it == #[trigger] spec_item_at(r, q));
                        assert forall|it: SpecItem0| news.contains(it) <==> (olds.contains(it) || it == spec_item_at(r, p as int)) by {
                            if news.contains(it) && it != spec_item_at(r, p as int) {
                                let q = choose|q: int| 0 <= q < p + 1 && it == #[trigger] spec_item_at(r, q);
                                assert(olds.contains(it));
                            }
                            if olds.contains(it) {
                                let q = choose|q: int| 0 <= q < p && it == #[trigger] spec_item_at(r, q);
                                assert(news.contains(it));
                            }
                        }
                        assert(ans@.to_set() =~= all_items0(rules.take(k as int)).union(news));
                        assert(ans@ =~= start + Seq::new((p + 1) as nat, |q: int| spec_item_at(r, q)));
                        cnt = p + 1;
                    }
                    if p == n {
                        fin = true;
                    } else {
                        p = p + 1;
                    }
                }
                proof {
                    let done = Set::new(|it: SpecItem0| exists|q: int| 0 <= q < cnt && it == #[trigger] spec_item_at(r, q));
                    assert(cnt == r.right.len() + 1);
                    assert forall|it: SpecItem0| done.contains(it) <==> rule_items0(r).contains(it) by {
                        if done.contains(it) {
                            let q = choose|q: int| 0 <= q < cnt && it == #[trigger] spec_item_at(r, q);
                            assert(rule_items0(r).contains(it));
                        }
                        if rule_items0(r).contains(it) {
                            let q = choose|q: int| 0 <= q <= r.right.len() && it == #[trigger] spec_item_at(r, q);
                            assert(done.contains(it));
                        }
                    }
                    assert(done =~= rule_items0(r));
                    assert(ans@.to_set() =~= all_items0(rules.take(k + 1)));
                    assert(ans@ =~= item_list0(rules.take(k + 1)));
                }
            }
        }
        assert(rules.take(rules.len() as int) =~= rules);
        let sorted = LR0ItemSet { items: sort_items0(&ans.items) };
        proof {
            lemma_same_multiset(ans@, sorted@);
        }
        sorted
    }

    /// The items with the dot in front of each production of the start symbol.
    pub fn from_grammar_initial(grammar: &Grammar) -> (res: LR0ItemSet)
        ensures
            res@.to_set() == initial_items0(grammar@),
            res@.to_multiset() == initial_list0(grammar@.rules, grammar@.origin).to_multiset(),
            sorted_by(res@, item0_order()),
    {
        let ghost g = grammar@;
        let mut ans = LR0ItemSet::new();
        assert(ans@ =~= initial_list0(g.rules.take(0), g.origin));
        for k in 0..grammar.rules.len()
            invariant
                g == grammar@,
                ans@ == initial_list0(g.rules.take(k as int), g.origin),
                ans@.to_set() == Set::new(
                    |it: SpecItem0| exists|j: int| 0 <= j < k && (#[trigger] g.rules[j]).left == g.origin && it == spec_item_at(g.rules[j], 0),
                ),
        {
            let rule = &grammar.rules[k];
            assert(rule@ == g.rules[k as int]);
            let ghost before = ans@;
            if rule.left == grammar.origin {
                ans.add_item(LR0Item::from_rule_and_position(rule, 0));
                proof { before.lemma_push_to_set_commute(spec_item_at(g.rules[k as int], 0)); }
            }
            proof {
                let news = Set::new(
                    |it: SpecItem0| exists|j: int| 0 <= j < k + 1 && (#[trigger] g.rules[j]).left == g.origin && it == spec_item_at(g.rules[j], 0),
                );
                assert forall|it: SpecItem0| ans@.to_set().contains(it) <==> news.contains(it) by {
                    if news.contains(it) {
                        let j = choose|j: int| 0 <= j < k + 1 && (#[trigger] g.rules[j]).left == g.origin && it == spec_item_at(g.rules[j], 0);
                        if j < k {
                            assert(before.to_set().contains(it));
                        }
                    }
                }
                assert(ans@.to_set() =~= news);
                assert(g.rules.take(k + 1).drop_last() =~= g.rules.take(k as int));
                assert(g.rules.take(k + 1).last() == g.rules[k as int]);
            }
        }
        assert(g.rules.take(g.rules.len() as int) =~= g.rules);
        let sorted = LR0ItemSet { items: sort_items0(&ans.items) };
        proof {
            lemma_same_multiset(ans@, sorted@);
        }
        sorted
    }

    /// The LR(0) closure of this set with respect to the items `whole`, each item once.
    pub fn closure(&self, whole: &LR0ItemSet) -> (res: LR0ItemSet)
        ensures
            res@.no_duplicates(),
            res@.to_set() == spec_closure0(self@.to_set(), whole@.to_set()),
            sorted_by(res@, item0_order()),
    {
        let ghost init = self@.to_set();
        let ghost wset = whole@.to_set();
        let ghost edge = closure_edge0(wset);
        let mut ans: Vec<LR0Item> = Vec::new();
        for i in 0..self.items.len()
            invariant
                init == self@.to_set(),
                edge == closure_edge0(wset),
                items0_view(ans@).no_duplicates(),
                ans@.len() <= i,
                forall|j: int| 0 <= j < i ==> items0_view(ans@).contains(#[trigger] self@[j]),
                forall|j: int| 0 <= j < ans@.len() ==> init.contains(#[trigger] items0_view(ans@)[j]),
        {
            assert(self@[i as int] == self.items@[i as int]@);
            if !contains_item0(&ans, &self.items[i]) {
                let ghost before = items0_view(ans@);
                let c = self.items[i].clone();
                ans.push(c);
                proof {
                    broadcast use vstd::seq_lib::lemma_seq_contains_after_push;
                    assert(items0_view(ans@) =~= before.push(self@[i as int]));
                    lemma_push_no_dup(before, self@[i as int]);
                    assert forall|j: int| 0 <= j < ans@.len() implies init.contains(#[trigger] items0_view(ans@)[j]) by {
                        if j < before.len() {
                            assert(items0_view(ans@)[j] == before[j]);
                        }
                    }
                }
            }
        }
        let n0 = ans.len();
        let mut idx: usize = 0;
        while idx < ans.len()
            invariant
                init == self@.to_set(),
                wset == whole@.to_set(),
                edge == closure_edge0(wset),
                items0_view(ans@).no_duplicates(),
                n0 <= ans@.len(),
                n0 <= self@.len(),
                0 <= idx <= ans@.len(),
                forall|j: int| 0 <= j < self@.len() ==> items0_view(ans@).contains(#[trigger] self@[j]),
                forall|j: int| n0 <= j < ans@.len() ==> wset.contains(#[trigger] items0_view(ans@)[j]),
                forall|j: int| 0 <= j < ans@.len() ==> least_closed(init, edge).contains(#[trigger] items0_view(ans@)[j]),
                forall|j: int, b: SpecItem0| 0 <= j < idx && #[trigger] edge(items0_view(ans@)[j], b) ==> items0_view(ans@).contains(b),
            decreases self@.len() + whole@.len() - idx,
        {
            proof {
                let added = items0_view(ans@).subrange(n0 as int, ans@.len() as int);
                assert forall|a: int, b: int| 0 <= a < added.len() && 0 <= b < added.len() && a != b implies added[a] != added[b] by {
                    assert(added[a] == items0_view(ans@)[n0 + a]);
                    assert(added[b] == items0_view(ans@)[n0 + b]);
                }
                assert forall|j: int| 0 <= j < added.len() implies whole@.contains(#[trigger] added[j]) by {
                    assert(added[j] == items0_view(ans@)[n0 + j]);
                    assert(wset.contains(added[j]));
                }
                lemma_distinct_within_seq_len(added, whole@);
            }
            let ghost cur = items0_view(ans@)[idx as int];
            assert(cur == ans@[idx as int]@);
            if ans[idx].y.len() > 0 && ans[idx].y[0].is_non_terminal() {
                assert(cur.y[0] == ans@[idx as int].y@[0]@);
                let b_letter = ans[idx].y[0].clone();
                for k in 0..whole.items.len()
                    invariant
                        init == self@.to_set(),
                        wset == whole@.to_set(),
                        edge == closure_edge0(wset),
                        items0_view(ans@).no_duplicates(),
                        n0 <= ans@.len(),
                        n0 <= self@.len(),
                        0 <= idx < ans@.len(),
                        cur == items0_view(ans@)[idx as int],
                        cur.y.len() > 0,
                        cur.y[0] is NonTerminal,
                        b_letter@ == cur.y[0],
                        forall|j: int| 0 <= j < self@.len() ==> items0_view(ans@).contains(#[trigger] self@[j]),
                        forall|j: int| n0 <= j < ans@.len() ==> wset.contains(#[trigger] items0_view(ans@)[j]),
                        forall|j: int| 0 <= j < ans@.len() ==> least_closed(init, edge).contains(#[trigger] items0_view(ans@)[j]),
                        forall|j: int, b: SpecItem0| 0 <= j < idx && #[trigger] edge(items0_view(ans@)[j], b) ==> items0_view(ans@).contains(b),
                        forall|m: int| 0 <= m < k && (#[trigger] whole@[m]).left == cur.y[0] && whole@[m].x.len() == 0 ==> items0_view(ans@).contains(whole@[m]),
                {
                    let w = &whole.items[k];
                    assert(whole@[k as int] == w@);
                    if w.left == b_letter && w.x.len() == 0 && !contains_item0(&ans, w) {
                        let ghost before = items0_view(ans@);
                        proof {
                            assert(wset.contains(w@));
                            assert(edge(cur, w@));
                            lemma_least_closed_step(init, edge, cur, w@);
                        }
                        let c = w.clone();
                        ans.push(c);
                        proof {
                            broadcast use vstd::seq_lib::lemma_seq_contains_after_push;
                            assert(items0_view(ans@) =~= before.push(w@));
                            lemma_push_no_dup(before, w@);
                            assert forall|j: int| 0 <= j < ans@.len() implies least_closed(init, edge).contains(#[trigger] items0_view(ans@)[j]) by {
                                if j < before.len() {
                                    assert(items0_view(ans@)[j] == before[j]);
                                }
                            }
                            assert forall|j: int| n0 <= j < ans@.len() implies wset.contains(#[trigger] items0_view(ans@)[j]) by {
                                if j < before.len() {
                                    assert(items0_view(ans@)[j] == before[j]);
                                }
                            }
                            assert forall|j: int, b: SpecItem0| 0 <= j < idx && #[trigger] edge(items0_view(ans@)[j], b) implies items0_view(ans@).contains(b) by {
                                assert(items0_view(ans@)[j] == before[j]);
                            }
                        }
                    }
                    proof {
                        broadcast use vstd::seq_lib::lemma_seq_contains_after_push;
                    }
                }
                proof {
                    assert forall|j: int, b: SpecItem0| 0 <= j < idx + 1 && #[trigger] edge(items0_view(ans@)[j], b) implies items0_view(ans@).contains(b) by {
                        if j == idx {
                            let m = choose|m: int| 0 <= m < whole@.len() && whole@[m] == b;
                            assert(whole@[m].left == cur.y[0]);
                        }
                    }
                }
            }
            idx = idx + 1;
        }
        proof {
            let s = items0_view(ans@).to_set();
            assert(init.subset_of(s)) by {
                assert forall|it: SpecItem0| init.contains(it) implies s.contains(it) by {
                    let j = choose|j: int| 0 <= j < self@.len() && self@[j] == it;
                }
            }
            assert(closed_under(edge, s)) by {
                assert forall|u: SpecItem0, v: SpecItem0| s.contains(u) && #[trigger] edge(u, v) implies s.contains(v) by {
                    let j = choose|j: int| 0 <= j < items0_view(ans@).len() && items0_view(ans@)[j] == u;
                }
            }
            assert(s.subset_of(least_closed(init, edge))) by {
                assert forall|it: SpecItem0| s.contains(it) implies least_closed(init, edge).contains(it) by {
                    let j = choose|j: int| 0 <= j < items0_view(ans@).len() && items0_view(ans@)[j] == it;
                }
            }
            lemma_least_closed_eq(init, edge, s);
        }
        let sorted = LR0ItemSet { items: sort_items0(&ans) };
        proof {
            lemma_same_multiset(items0_view(ans@), sorted@);
        }
        sorted
    }

    /// GO(self, letter): the closure of the items of this set with `letter` after the
    /// dot, the dot moved over it; each item once.
    pub fn go(&self, whole: &LR0ItemSet, letter: &Letter) -> (res: LR0ItemSet)
        requires
            letter@ is NonTerminal || letter@ is Terminal,
        ensures
            res@.no_duplicates(),
            res@.to_set() == spec_go0(self@.to_set(), whole@.to_set(), letter@),
            sorted_by(res@, item0_order()),
    {
        let mut temp = LR0ItemSet::new();
        for i in 0..self.items.len()
            invariant
                temp@.to_set() == Set::new(
                    |it: SpecItem0| exists|j: int| 0 <= j < i && self@[j].y.len() > 0 && self@[j].y[0] == letter@ && it == spec_shift0(#[trigger] self@[j]),
                ),
        {
            let item = &self.items[i];
            assert(self@[i as int] == item@);
            let ghost before = temp@;
            if item.y.len() >= 1 && item.y[0] == *letter {
                assert(item@.y[0] == item.y@[0]@);
                temp.add_item(item.shift_right());
                proof { before.lemma_push_to_set_commute(spec_shift0(item@)); }
            }
            proof {
                let news = Set::new(
                    |it: SpecItem0| exists|j: int| 0 <= j < i + 1 && self@[j].y.len() > 0 && self@[j].y[0] == letter@ && it == spec_shift0(#[trigger] self@[j]),
                );
                assert forall|it: SpecItem0| temp@.to_set().contains(it) <==> news.contains(it) by {
                    if news.contains(it) {
                        let j = choose|j: int| 0 <= j < i + 1 && self@[j].y.len() > 0 && self@[j].y[0] == letter@ && it == spec_shift0(#[trigger] self@[j]);
                        if j < i {
                            assert(before.to_set().contains(it));
                        }
                    }
                }
                assert(temp@.to_set() =~= news);
            }
        }
        proof {
            assert(temp@.to_set() =~= kernel0(self@.to_set(), letter@)) by {
                assert forall|it: SpecItem0| kernel0(self@.to_set(), letter@).contains(it) implies temp@.to_set().contains(it) by {
                    let a = choose|a: SpecItem0| self@.to_set().contains(a) && a.y.len() > 0 && a.y[0] == letter@ && it == spec_shift0(a);
                    let j = choose|j: int| 0 <= j < self@.len() && self@[j] == a;
                }
                assert forall|it: SpecItem0| temp@.to_set().contains(it) implies kernel0(self@.to_set(), letter@).contains(it) by {
                    let j = choose|j: int| 0 <= j < self@.len() && self@[j].y.len() > 0 && self@[j].y[0] == letter@ && it == spec_shift0(#[trigger] self@[j]);
                    assert(self@.to_set().contains(self@[j]));
                }
            }
        }
        temp.closure(whole)
    }
}

impl LR0ItemSet {
    /// A copy of this set.
    pub fn copy(&self) -> (res: LR0ItemSet)
        ensures
            res@ == self@,
    {
        let mut items: Vec<LR0Item> = Vec::new();
        for i in 0..self.items.len()
            invariant
                items0_view(items@) == self@.take(i as int),
        {
            let ghost before = items@;
            items.push(self.items[i].clone());
            proof {
                lemma_items0_push(before, items@.last());
                assert(self@.take(i + 1) =~= self@.take(i as int).push(self@[i as int]));
            }
        }
        assert(self@.take(self@.len() as int) =~= self@);
        LR0ItemSet { items }
    }

    /// Whether both sets hold the same items.
    pub fn same_items(&self, other: &LR0ItemSet) -> (res: bool)
        ensures
            res == (self@.to_set() == other@.to_set()),
    {
        for i in 0..self.items.len()
            invariant
                forall|j: int| 0 <= j < i ==> other@.contains(#[trigger] self@[j]),
        {
            assert(self@[i as int] == self.items@[i as int]@);
            if !contains_item0(&other.items, &self.items[i]) {
                assert(self@.to_set().contains(self@[i as int]));
                assert(!other@.to_set().contains(self@[i as int]));
                return false;
            }
        }
        for i in 0..other.items.len()
            invariant
                forall|j: int| 0 <= j < i ==> self@.contains(#[trigger] other@[j]),
        {
            assert(other@[i as int] == other.items@[i as int]@);
            if !contains_item0(&self.items, &other.items[i]) {
                assert(other@.to_set().contains(other@[i as int]));
                assert(!self@.to_set().contains(other@[i as int]));
                return false;
            }
        }
        assert(self@.to_set() =~= other@.to_set()) by {
            assert forall|it: SpecItem0| self@.to_set().contains(it) implies other@.to_set().contains(it) by {
                let j = choose|j: int| 0 <= j < self@.len() && self@[j] == it;
            }
            assert forall|it: SpecItem0| other@.to_set().contains(it) implies self@.to_set().contains(it) by {
                let j = choose|j: int| 0 <= j < other@.len() && other@[j] == it;
            }
        }
        true
    }
}

/// The printed form of a list of items: each item on a line of its own.
pub open spec fn item_lines0(s: Seq<SpecItem0>) -> Seq<char>
    decreases s.len(),
{
    if s.len() == 0 {
        seq![]
    } else {
        item_lines0(s.drop_last()) + spec_item0_display(s.last()) + seq!['\n']
    }
}

impl LR0ItemSet {
    /// The items, each on a line of its own.
    pub fn to_string(&self) -> (res: String)
        ensures
            res@ == item_lines0(self@),
    {
        let mut s = String::new();
        for i in 0..self.items.len()
            invariant
                s@ == item_lines0(self@.take(i as int)),
        {
            let ghost before = s@;
            let t = self.items[i].to_string();
            s.append(t.as_str());
            s.append("\n");
            proof {
                reveal_strlit("\n");
            }
            assert(self@.take(i + 1).drop_last() =~= self@.take(i as int));
            assert(self@.take(i + 1).last() == self.items@[i as int]@);
        }
        assert(self@.take(self.items@.len() as int) =~= self@);
        s
    }
}

} // verus!

use vstd::prelude::*;
use vstd::string::*;
use super::lr1_item::{LR1Item, SpecItem1, spec_shift1, spec_lr0_equal, spec_item1_display, item1_order, lemma_item1_strict_total,
    compare_items1};
use crate::grammar::order::{strict_total, sorted_by, lemma_insert_sorted, lemma_same_multiset};
use crate::grammar::letter::{Letter, SpecLetter, seq_view, clone_letters};
use crate::grammar::rule::{Rule, SpecRule, rules_view};
use crate::grammar::has_rule_for;
use crate::grammar::{Grammar, SpecGrammar};
use crate::first_follow_set::{FirstFollowSet, has_entry, entry_set, keys_of, sentence_first, spec_sentence_first};
use crate::utils::{closed_under, least_closed, lemma_least_closed_init, lemma_least_closed_step, lemma_least_closed_eq,
    lemma_distinct_within_seq_len, lemma_push_no_dup};

verus! {

/// The items of a vector.
pub open spec fn items1_view(s: Seq<LR1Item>) -> Seq<SpecItem1> {
    s.map_values(|i: LR1Item| i@)
}

/// The symbols after the dot in a closure item: none for `A -> .`, else the right side.
pub open spec fn rule_body(r: SpecRule) -> Seq<SpecLetter> {
    if r.right.len() == 1 && r.right[0] is Empty {
        Seq::empty()
    } else {
        r.right
    }
}

/// The symbols that may follow the non terminal after the dot of `a`: FIRST of the
/// rest of `a` followed by its expected symbol.
pub open spec fn lookaheads(m: Seq<(Letter, Vec<Letter>)>, a: SpecItem1) -> Set<SpecLetter> {
    spec_sentence_first(m, a.y.skip(1).push(a.expected))
}

/// One closure step: an item with a non terminal `B` after the dot brings in
/// `B -> : body, b` for every production of `B` and every symbol `b` that may follow.
pub open spec fn closure_edge1(rules: Seq<SpecRule>, m: Seq<(Letter, Vec<Letter>)>) -> spec_fn(SpecItem1, SpecItem1) -> bool {
    |a: SpecItem1, b: SpecItem1|
        a.y.len() > 0 && a.y[0] is NonTerminal && b.left == a.y[0] && b.x.len() == 0 && lookaheads(m, a).contains(b.expected)
            && !(b.expected is Empty) && exists|k: int| 0 <= k < rules.len() && (#[trigger] rules[k]).left == a.y[0] && b.y == rule_body(rules[k])
}

/// The LR(1) closure of `init` under the productions `rules`.
pub open spec fn spec_closure1(init: Set<SpecItem1>, rules: Seq<SpecRule>, m: Seq<(Letter, Vec<Letter>)>) -> Set<SpecItem1> {
    least_closed(init, closure_edge1(rules, m))
}

/// The items of `items` with `x` after the dot, the dot moved over it.
pub open spec fn kernel1(items: Set<SpecItem1>, x: SpecLetter) -> Set<SpecItem1> {
    Set::new(|it: SpecItem1| exists|a: SpecItem1| items.contains(a) && a.y.len() > 0 && a.y[0] == x && it == spec_shift1(a))
}

/// GO(items, x) for LR(1) items.
pub open spec fn spec_go1(items: Set<SpecItem1>, rules: Seq<SpecRule>, m: Seq<(Letter, Vec<Letter>)>, x: SpecLetter) -> Set<SpecItem1> {
    spec_closure1(kernel1(items, x), rules, m)
}

/// A symbol the closure can work with: a terminal, or a non terminal with a FIRST
/// entry and a production.
pub open spec fn letter_ok(rules: Seq<SpecRule>, m: Seq<(Letter, Vec<Letter>)>, x: SpecLetter) -> bool {
    (x is Terminal) || (x is NonTerminal && has_entry(m, x) && has_rule_for(rules, x))
}

/// A lookahead whose FIRST set can be read: a terminal, `#`, or a non terminal with an
/// entry in the FIRST table.
pub open spec fn lookahead_ok(m: Seq<(Letter, Vec<Letter>)>, x: SpecLetter) -> bool {
    x is Terminal || x is EndSign || (x is NonTerminal && has_entry(m, x))
}

/// An item the closure can work with: each symbol after the dot a terminal or a non
/// terminal with productions and a FIRST entry, and a lookahead whose FIRST set can be read.
pub open spec fn item1_ok(rules: Seq<SpecRule>, m: Seq<(Letter, Vec<Letter>)>, a: SpecItem1) -> bool {
    &&& forall|i: int| 0 <= i < a.y.len() ==> letter_ok(rules, m, #[trigger] a.y[i])
    &&& lookahead_ok(m, a.expected)
}

/// A production `A -> .` or made of usable symbols.
pub open spec fn rule_ok1(rules: Seq<SpecRule>, m: Seq<(Letter, Vec<Letter>)>, r: SpecRule) -> bool {
    r.right == seq![SpecLetter::Empty] || forall|i: int| 0 <= i < r.right.len() ==> letter_ok(rules, m, #[trigger] r.right[i])
}

/// Productions and FIRST table the closure can work with: each production is `A -> .`
/// or made of usable symbols, and the FIRST sets hold terminals and the empty word.
pub open spec fn context1_ok(rules: Seq<SpecRule>, ff: &FirstFollowSet) -> bool {
    &&& ff.wf()
    &&& forall|k: int| 0 <= k < rules.len() ==> #[trigger] rule_ok1(rules, ff.first_set@, rules[k])
    &&& forall|i: int, j: int|
        0 <= i < ff.first_set@.len() && 0 <= j < ff.first_set@[i].1@.len() ==> (#[trigger] ff.first_set@[i].1@[j])@ is Terminal
            || ff.first_set@[i].1@[j]@ is Empty
}

/// A set of LR(1) items.
#[derive(Debug)]
pub struct LR1ItemSet {
    pub items: Vec<LR1Item>,
}

impl View for LR1ItemSet {
    type V = Seq<SpecItem1>;

    open spec fn view(&self) -> Seq<SpecItem1> {
        items1_view(self.items@)
    }
}

pub proof fn lemma_items1_push(s: Seq<LR1Item>, it: LR1Item)
    ensures
        items1_view(s.push(it)) == items1_view(s).push(it@),
{
    assert(items1_view(s.push(it)) =~= items1_view(s).push(it@));
}

/// Whether `it` occurs in `v`.
pub fn contains_item1(v: &Vec<LR1Item>, it: &LR1Item) -> (res: bool)
    ensures
        res == items1_view(v@).contains(it@),
{
    for i in 0..v.len()
        invariant
            forall|j: int| 0 <= j < i ==> v@[j]@ != it@,
    {
        if v[i] == *it {
            assert(items1_view(v@)[i as int] == it@);
            return true;
        }
    }
    proof {
        if items1_view(v@).contains(it@) {
            let j = choose|j: int| 0 <= j < items1_view(v@).len() && items1_view(v@)[j] == it@;
            assert(v@[j]@ == it@);
        }
    }
    false
}

/// Every symbol of the FIRST sets, of the productions and of the items lies in `es`.
pub open spec fn letters_within(rules: Seq<SpecRule>, m: Seq<(Letter, Vec<Letter>)>, es: Set<SpecLetter>) -> bool {
    &&& forall|i: int, j: int| 0 <= i < m.len() && 0 <= j < m[i].1@.len() ==> es.contains((#[trigger] m[i].1@[j])@)
    &&& forall|k: int, i: int| 0 <= k < rules.len() && 0 <= i < rules[k].right.len() ==> es.contains(#[trigger] rules[k].right[i])
}

/// The symbols of the item lie in `es`.
pub open spec fn item_within(a: SpecItem1, es: Set<SpecLetter>) -> bool {
    &&& forall|i: int| 0 <= i < a.y.len() ==> es.contains(#[trigger] a.y[i])
    &&& es.contains(a.expected)
}

/// FIRST of a string of symbols of `es` holds symbols of `es` and the empty word; with
/// FIRST sets of terminals and the empty word, and no non terminal among the other
/// symbols, it holds terminals, `#` and the empty word.
pub proof fn lemma_sentence_first_within(m: Seq<(Letter, Vec<Letter>)>, s: Seq<SpecLetter>, es: Set<SpecLetter>)
    requires
        forall|i: int, j: int| 0 <= i < m.len() && 0 <= j < m[i].1@.len() ==> es.contains((#[trigger] m[i].1@[j])@),
        forall|i: int, j: int| 0 <= i < m.len() && 0 <= j < m[i].1@.len() ==> (#[trigger] m[i].1@[j])@ is Terminal || m[i].1@[j]@ is Empty,
        forall|i: int| 0 <= i < s.len() ==> es.contains(#[trigger] s[i]),
        forall|i: int| 0 <= i < s.len() && (#[trigger] s[i]) is NonTerminal ==> has_entry(m, s[i]),
        forall|i: int| 0 <= i < s.len() ==> (#[trigger] s[i]) is Terminal || s[i] is NonTerminal || s[i] is EndSign,
    ensures
        forall|x: SpecLetter| #[trigger] sentence_first(m, s).contains(x) ==> x is Empty || (es.contains(x) && (x is Terminal || x is EndSign)),
    decreases s.len(),
{
    if s.len() > 0 {
        let t = s.drop_first();
        assert forall|i: int| 0 <= i < t.len() implies es.contains(#[trigger] t[i]) by {
            assert(t[i] == s[i + 1]);
        }
        assert forall|i: int| 0 <= i < t.len() && (#[trigger] t[i]) is NonTerminal implies has_entry(m, t[i]) by {
            assert(t[i] == s[i + 1]);
        }
        assert forall|i: int| 0 <= i < t.len() implies (#[trigger] t[i]) is Terminal || t[i] is NonTerminal || t[i] is EndSign by {
            assert(t[i] == s[i + 1]);
        }
        lemma_sentence_first_within(m, t, es);
        assert(es.contains(s[0]));
        assert forall|x: SpecLetter| #[trigger] sentence_first(m, s).contains(x) implies x is Empty || (es.contains(x) && (x is Terminal || x is EndSign)) by {
            if s[0] is NonTerminal {
                let ci = choose|i: int| 0 <= i < m.len() && (#[trigger] m[i]).0@ == s[0];
                let f = entry_set(m, s[0]);
                assert(f == seq_view(m[ci].1@).to_set());
                if f.contains(x) {
                    let j = choose|j: int| 0 <= j < seq_view(m[ci].1@).len() && seq_view(m[ci].1@)[j] == x;
                    assert(m[ci].1@[j]@ == x);
                } else {
                    assert(f.contains(SpecLetter::Empty));
                    assert(sentence_first(m, t).contains(x));
                }
            } else {
                assert(x == s[0]);
            }
        }
    }
}

/// Appends copies of the letters of `v` to `es`.
fn push_letters(es: &mut Vec<Letter>, v: &Vec<Letter>)
    ensures
        forall|x: SpecLetter| seq_view(old(es)@).contains(x) ==> seq_view(final(es)@).contains(x),
        forall|j: int| 0 <= j < v@.len() ==> seq_view(final(es)@).contains(#[trigger] v@[j]@),
        forall|x: SpecLetter| seq_view(final(es)@).contains(x) ==> seq_view(old(es)@).contains(x) || seq_view(v@).contains(x),
{
    let ghost e0 = seq_view(es@);
    for j in 0..v.len()
        invariant
            forall|x: SpecLetter| e0.contains(x) ==> seq_view(es@).contains(x),
            forall|j2: int| 0 <= j2 < j ==> seq_view(es@).contains(#[trigger] v@[j2]@),
            forall|x: SpecLetter| seq_view(es@).contains(x) ==> e0.contains(x) || seq_view(v@).contains(x),
    {
        let ghost before = es@;
        let c = v[j].clone();
        es.push(c);
        proof {
            broadcast use vstd::seq_lib::lemma_seq_contains_after_push;
            crate::grammar::letter::lemma_seq_view_push(before, c);
            assert(seq_view(v@)[j as int] == c@);
        }
    }
}

/// The symbols after the dot of a closure item of `r`.
fn rule_body_exec(r: &Rule) -> (res: Vec<Letter>)
    ensures
        seq_view(res@) == rule_body(r@),
{
    if r.right.len() == 1 && r.right[0].is_empty() {
        assert(r@.right[0] == r.right@[0]@);
        let v: Vec<Letter> = Vec::new();
        assert(seq_view(v@) =~= Seq::<SpecLetter>::empty());
        v
    } else {
        proof {
            if r@.right.len() == 1 && r@.right[0] is Empty {
                assert(r@.right[0] == r.right@[0]@);
            }
        }
        clone_letters(&r.right)
    }
}

/// The closure item `r.left -> : body, e`.
pub open spec fn cand_item(r: SpecRule, e: SpecLetter) -> SpecItem1 {
    SpecItem1 { left: r.left, x: Seq::empty(), y: rule_body(r), expected: e }
}

/// Sorts items into the order of `item1_lt`, keeping each of them as often as it occurs.
pub fn sort_items1(v: &Vec<LR1Item>) -> (res: Vec<LR1Item>)
    ensures
        items1_view(res@).to_multiset() == items1_view(v@).to_multiset(),
        sorted_by(items1_view(res@), item1_order()),
{
    proof {
        lemma_item1_strict_total();
    }
    let ghost o = item1_order();
    let mut out: Vec<LR1Item> = Vec::new();
    assert(items1_view(v@.take(0)) =~= items1_view(out@));
    for i in 0..v.len()
        invariant
            o == item1_order(),
            strict_total(o),
            items1_view(out@).to_multiset() == items1_view(v@.take(i as int)).to_multiset(),
            sorted_by(items1_view(out@), o),
    {
        let x = v[i].clone();
        let mut pos: usize = 0;
        loop
            invariant
                o == item1_order(),
                strict_total(o),
                pos <= out@.len(),
                forall|k: int| 0 <= k < pos ==> !o(x@, #[trigger] items1_view(out@)[k]),
            ensures
                pos <= out@.len(),
                forall|k: int| 0 <= k < pos ==> !o(x@, #[trigger] items1_view(out@)[k]),
                pos < out@.len() ==> o(x@, items1_view(out@)[pos as int]),
            decreases out@.len() - pos,
        {
            if pos == out.len() {
                break;
            }
            let r = compare_items1(&x, &out[pos]);
            assert(items1_view(out@)[pos as int] == out@[pos as int]@);
            if r < 0 {
                break;
            }
            proof {
                if r == 0 {
                    assert(!o(x@, x@));
                } else {
                    assert(o(out@[pos as int]@, x@));
                    if o(x@, out@[pos as int]@) {
                        assert(o(x@, x@));
                    }
                }
            }
            pos = pos + 1;
        }
        let ghost before = items1_view(out@);
        proof {
            lemma_insert_sorted(before, pos as int, x@, o);
            broadcast use vstd::seq_lib::group_to_multiset_ensures;
            assert(items1_view(v@.take(i + 1)) =~= items1_view(v@.take(i as int)).push(v@[i as int]@));
        }
        out.insert(pos, x);
        assert(items1_view(out@) =~= before.insert(pos as int, x@));
    }
    assert(v@.take(v@.len() as int) =~= v@);
    out
}

impl LR1ItemSet {
    pub fn new() -> (res: LR1ItemSet)
        ensures
            res@ == Seq::<SpecItem1>::empty(),
    {
        let res = LR1ItemSet { items: Vec::new() };
        assert(res@ =~= Seq::<SpecItem1>::empty());
        res
    }

    pub fn is_empty(&self) -> (res: bool)
        ensures
            res == (self@.len() == 0),
    {
        self.items.len() == 0
    }

    /// The LR(1) closure of this set under the productions `whole`, with the FIRST sets
    /// of `ffset`; each item once.
    #[verifier::rlimit(80)]
    pub fn closure(&self, whole: &Vec<Rule>, ffset: &FirstFollowSet) -> (res: LR1ItemSet)
        requires
            context1_ok(rules_view(whole@), ffset),
            forall|i: int| 0 <= i < self@.len() ==> item1_ok(rules_view(whole@), ffset.first_set@, #[trigger] self@[i]),
        ensures
            res@.no_duplicates(),
            res@.to_set() == spec_closure1(self@.to_set(), rules_view(whole@), ffset.first_set@),
            forall|i: int| 0 <= i < res@.len() ==> item1_ok(rules_view(whole@), ffset.first_set@, #[trigger] res@[i]),
            sorted_by(res@, item1_order()),
    {
        let ghost rules = rules_view(whole@);
        let ghost m = ffset.first_set@;
        let ghost init = self@.to_set();
        let ghost edge = closure_edge1(rules, m);
        // every symbol that can occur
        let mut es: Vec<Letter> = Vec::new();
        for i in 0..ffset.first_set.len()
            invariant
                m == ffset.first_set@,
                forall|i2: int, j: int| 0 <= i2 < i && 0 <= j < m[i2].1@.len() ==> seq_view(es@).contains((#[trigger] m[i2].1@[j])@),
        {
            push_letters(&mut es, &ffset.first_set[i].1);
        }
        for k in 0..whole.len()
            invariant
                m == ffset.first_set@,
                rules == rules_view(whole@),
                forall|i2: int, j: int| 0 <= i2 < m.len() && 0 <= j < m[i2].1@.len() ==> seq_view(es@).contains((#[trigger] m[i2].1@[j])@),
                forall|k2: int, j: int| 0 <= k2 < k && 0 <= j < rules[k2].right.len() ==> seq_view(es@).contains(#[trigger] rules[k2].right[j]),
        {
            let ghost before = seq_view(es@);
            push_letters(&mut es, &whole[k].right);
            proof {
                assert forall|k2: int, j: int| 0 <= k2 < k + 1 && 0 <= j < rules[k2].right.len() implies seq_view(es@).contains(#[trigger] rules[k2].right[j]) by {
                    if k2 == k {
                        assert(rules[k2].right[j] == whole@[k2].right@[j]@);
                    }
                }
            }
        }
        for i in 0..self.items.len()
            invariant
                m == ffset.first_set@,
                rules == rules_view(whole@),
                letters_within(rules, m, seq_view(es@).to_set()),
                forall|i2: int| 0 <= i2 < i ==> item_within(#[trigger] self@[i2], seq_view(es@).to_set()),
        {
            let ghost e0 = seq_view(es@);
            push_letters(&mut es, &self.items[i].y);
            let ghost e1 = seq_view(es@);
            let ghost before = es@;
            let c = self.items[i].expected.clone();
            es.push(c);
            proof {
                broadcast use vstd::seq_lib::lemma_seq_contains_after_push;
                crate::grammar::letter::lemma_seq_view_push(before, c);
                assert(seq_view(es@) == e1.push(c@));
                let es_set = seq_view(es@).to_set();
                assert forall|x: SpecLetter| e0.contains(x) implies seq_view(es@).contains(x) by {
                    assert(e1.contains(x));
                }
                assert forall|x: SpecLetter| e0.to_set().contains(x) implies es_set.contains(x) by {
                    assert(e0.contains(x));
                    assert(e1.contains(x));
                }
                assert(letters_within(rules, m, es_set)) by {
                    assert forall|i2: int, j: int| 0 <= i2 < m.len() && 0 <= j < m[i2].1@.len() implies es_set.contains((#[trigger] m[i2].1@[j])@) by {
                        assert(e0.to_set().contains(m[i2].1@[j]@));
                        assert(e0.contains(m[i2].1@[j]@));
                    }
                    assert forall|k: int, j: int| 0 <= k < rules.len() && 0 <= j < rules[k].right.len() implies es_set.contains(#[trigger] rules[k].right[j]) by {
                        assert(e0.to_set().contains(rules[k].right[j]));
                        assert(e0.contains(rules[k].right[j]));
                    }
                }
                assert forall|i2: int| 0 <= i2 < i + 1 implies item_within(#[trigger] self@[i2], es_set) by {
                    if i2 < i {
                        assert forall|j: int| 0 <= j < self@[i2].y.len() implies es_set.contains(#[trigger] self@[i2].y[j]) by {
                            assert(e0.to_set().contains(self@[i2].y[j]));
                            assert(e0.contains(self@[i2].y[j]));
                            assert(e1.contains(self@[i2].y[j]));
                        }
                        assert(e0.to_set().contains(self@[i2].expected));
                        assert(e0.contains(self@[i2].expected));
                    } else {
                        assert(self@[i2] == self.items@[i2]@);
                        assert forall|j: int| 0 <= j < self@[i2].y.len() implies es_set.contains(#[trigger] self@[i2].y[j]) by {
                            assert(self@[i2].y[j] == self.items@[i2].y@[j]@);
                        }
                    }
                }
            }
        }
        let ghost es_set = seq_view(es@).to_set();
        // every item the closure can bring in
        let mut cands: Vec<LR1Item> = Vec::new();
        for k in 0..whole.len()
            invariant
                rules == rules_view(whole@),
                forall|k2: int, j: int| 0 <= k2 < k && 0 <= j < es@.len() ==> items1_view(cands@).contains(#[trigger] cand_item(rules[k2], es@[j]@)),
        {
            let body = rule_body_exec(&whole[k]);
            assert(whole@[k as int]@ == rules[k as int]);
            for j in 0..es.len()
                invariant
                    rules == rules_view(whole@),
                    k < whole@.len(),
                    whole@[k as int]@ == rules[k as int],
                    seq_view(body@) == rule_body(rules[k as int]),
                    forall|k2: int, j2: int| 0 <= k2 < k && 0 <= j2 < es@.len() ==> items1_view(cands@).contains(#[trigger] cand_item(rules[k2], es@[j2]@)),
                    forall|j2: int| 0 <= j2 < j ==> items1_view(cands@).contains(#[trigger] cand_item(rules[k as int], es@[j2]@)),
            {
                let it = LR1Item::from(whole[k].left.clone(), Vec::new(), clone_letters(&body), es[j].clone());
                let ghost before = cands@;
                cands.push(it);
                proof {
                    broadcast use vstd::seq_lib::lemma_seq_contains_after_push;
                    lemma_items1_push(before, it);
                    assert(it@.x =~= Seq::<SpecLetter>::empty());
                    assert(it@ == cand_item(rules[k as int], es@[j as int]@));
                }
            }
        }
        let mut ans: Vec<LR1Item> = Vec::new();
        for i in 0..self.items.len()
            invariant
                init == self@.to_set(),
                items1_view(ans@).no_duplicates(),
                ans@.len() <= i,
                forall|j: int| 0 <= j < i ==> items1_view(ans@).contains(#[trigger] self@[j]),
                forall|j: int| 0 <= j < ans@.len() ==> init.contains(#[trigger] items1_view(ans@)[j]),
                forall|j: int| 0 <= j < ans@.len() ==> exists|k: int| 0 <= k < self@.len() && #[trigger] items1_view(ans@)[j] == self@[k],
        {
            assert(self@[i as int] == self.items@[i as int]@);
            if !contains_item1(&ans, &self.items[i]) {
                let ghost before = items1_view(ans@);
                let c = self.items[i].clone();
                ans.push(c);
                proof {
                    broadcast use vstd::seq_lib::lemma_seq_contains_after_push;
                    assert(items1_view(ans@) =~= before.push(self@[i as int]));
                    lemma_push_no_dup(before, self@[i as int]);
                    assert forall|j: int| 0 <= j < ans@.len() implies init.contains(#[trigger] items1_view(ans@)[j]) by {
                        if j < before.len() {
                            assert(items1_view(ans@)[j] == before[j]);
                        }
                    }
                    assert forall|j: int| 0 <= j < ans@.len() implies exists|k: int| 0 <= k < self@.len() && #[trigger] items1_view(ans@)[j] == self@[k] by {
                        if j < before.len() {
                            assert(items1_view(ans@)[j] == before[j]);
                        } else {
                            assert(items1_view(ans@)[j] == self@[i as int]);
                        }
                    }
                }
            }
        }
        let n0 = ans.len();
        let mut idx: usize = 0;
        while idx < ans.len()
            invariant
                rules == rules_view(whole@),
                m == ffset.first_set@,
                init == self@.to_set(),
                edge == closure_edge1(rules, m),
                es_set == seq_view(es@).to_set(),
                context1_ok(rules, ffset),
                letters_within(rules, m, es_set),
                forall|k2: int, j: int| 0 <= k2 < rules.len() && 0 <= j < es@.len() ==> items1_view(cands@).contains(#[trigger] cand_item(rules[k2], es@[j]@)),
                items1_view(ans@).no_duplicates(),
                n0 <= ans@.len(),
                n0 <= self@.len(),
                0 <= idx <= ans@.len(),
                forall|j: int| 0 <= j < self@.len() ==> items1_view(ans@).contains(#[trigger] self@[j]),
                forall|j: int| n0 <= j < ans@.len() ==> items1_view(cands@).contains(#[trigger] items1_view(ans@)[j]),
                forall|j: int| 0 <= j < ans@.len() ==> least_closed(init, edge).contains(#[trigger] items1_view(ans@)[j]),
                forall|j: int| 0 <= j < ans@.len() ==> item1_ok(rules, m, #[trigger] items1_view(ans@)[j]),
                forall|j: int| 0 <= j < ans@.len() ==> item_within(#[trigger] items1_view(ans@)[j], es_set),
                forall|j: int, b: SpecItem1| 0 <= j < idx && #[trigger] edge(items1_view(ans@)[j], b) ==> items1_view(ans@).contains(b),
            decreases self@.len() + cands@.len() - idx,
        {
            proof {
                let added = items1_view(ans@).subrange(n0 as int, ans@.len() as int);
                assert forall|a: int, b: int| 0 <= a < added.len() && 0 <= b < added.len() && a != b implies added[a] != added[b] by {
                    assert(added[a] == items1_view(ans@)[n0 + a]);
                    assert(added[b] == items1_view(ans@)[n0 + b]);
                }
                assert forall|j: int| 0 <= j < added.len() implies items1_view(cands@).contains(#[trigger] added[j]) by {
                    assert(added[j] == items1_view(ans@)[n0 + j]);
                }
                lemma_distinct_within_seq_len(added, items1_view(cands@));
            }
            let ghost a = items1_view(ans@)[idx as int];
            assert(a == ans@[idx as int]@);
            if ans[idx].y.len() > 0 && ans[idx].y[0].is_non_terminal() {
                assert(a.y[0] == ans@[idx as int].y@[0]@);
                let b_letter = ans[idx].y[0].clone();
                let mut sen = ans[idx].skip1_right();
                sen.push(ans[idx].expected.clone());
                proof {
                    assert(item1_ok(rules, m, a));
                    assert(item_within(a, es_set));
                    assert forall|i: int| 0 <= i < sen@.len() implies !((#[trigger] sen@[i]) is Empty) && es_set.contains(sen@[i])
                        && (sen@[i] is NonTerminal ==> has_entry(m, sen@[i])) && (sen@[i] is Terminal || sen@[i] is NonTerminal || sen@[i] is EndSign) by {
                        if i < sen@.len() - 1 {
                            assert(sen@[i] == a.y[i + 1]);
                            assert(letter_ok(rules, m, a.y[i + 1]));
                        } else {
                            assert(sen@[i] == a.expected);
                        }
                    }
                    lemma_sentence_first_within(m, sen@, es_set);
                    assert(sen@ != seq![SpecLetter::Empty]) by {
                        if sen@ == seq![SpecLetter::Empty] {
                            assert(sen@[sen@.len() - 1] == a.expected);
                        }
                    }
                }
                let las = ffset.first_set_of_sentence(&sen);
                assert(seq_view(las@).to_set() == lookaheads(m, a));
                for k in 0..whole.len()
                    invariant
                        rules == rules_view(whole@),
                        m == ffset.first_set@,
                        init == self@.to_set(),
                        edge == closure_edge1(rules, m),
                        es_set == seq_view(es@).to_set(),
                        context1_ok(rules, ffset),
                        letters_within(rules, m, es_set),
                        forall|k2: int, j: int| 0 <= k2 < rules.len() && 0 <= j < es@.len() ==> items1_view(cands@).contains(#[trigger] cand_item(rules[k2], es@[j]@)),
                        items1_view(ans@).no_duplicates(),
                        n0 <= ans@.len(),
                        n0 <= self@.len(),
                        0 <= idx < ans@.len(),
                        a == items1_view(ans@)[idx as int],
                        a.y.len() > 0,
                        a.y[0] is NonTerminal,
                        b_letter@ == a.y[0],
                        seq_view(las@).to_set() == lookaheads(m, a),
                        forall|x: SpecLetter| #[trigger] lookaheads(m, a).contains(x) ==> x is Empty || (es_set.contains(x) && (x is Terminal || x is EndSign)),
                        forall|j: int| 0 <= j < self@.len() ==> items1_view(ans@).contains(#[trigger] self@[j]),
                        forall|j: int| n0 <= j < ans@.len() ==> items1_view(cands@).contains(#[trigger] items1_view(ans@)[j]),
                        forall|j: int| 0 <= j < ans@.len() ==> least_closed(init, edge).contains(#[trigger] items1_view(ans@)[j]),
                        forall|j: int| 0 <= j < ans@.len() ==> item1_ok(rules, m, #[trigger] items1_view(ans@)[j]),
                        forall|j: int| 0 <= j < ans@.len() ==> item_within(#[trigger] items1_view(ans@)[j], es_set),
                        forall|j: int, b: SpecItem1| 0 <= j < idx && #[trigger] edge(items1_view(ans@)[j], b) ==> items1_view(ans@).contains(b),
                        forall|k2: int, e: SpecLetter|
                            0 <= k2 < k && rules[k2].left == a.y[0] && lookaheads(m, a).contains(e) && !(e is Empty) ==> items1_view(ans@).contains(
                                #[trigger] cand_item(rules[k2], e),
                            ),
                {
                    assert(whole@[k as int]@ == rules[k as int]);
                    if whole[k].left == b_letter {
                        let body = rule_body_exec(&whole[k]);
                        for j in 0..las.len()
                            invariant
                                rules == rules_view(whole@),
                                m == ffset.first_set@,
                                init == self@.to_set(),
                                edge == closure_edge1(rules, m),
                                es_set == seq_view(es@).to_set(),
                                context1_ok(rules, ffset),
                                letters_within(rules, m, es_set),
                                forall|k2: int, j: int| 0 <= k2 < rules.len() && 0 <= j < es@.len() ==> items1_view(cands@).contains(#[trigger] cand_item(rules[k2], es@[j]@)),
                                items1_view(ans@).no_duplicates(),
                                n0 <= ans@.len(),
                                n0 <= self@.len(),
                                0 <= idx < ans@.len(),
                                0 <= k < rules.len(),
                                a == items1_view(ans@)[idx as int],
                                a.y.len() > 0,
                                a.y[0] is NonTerminal,
                                rules[k as int].left == a.y[0],
                                seq_view(body@) == rule_body(rules[k as int]),
                                b_letter@ == a.y[0],
                                seq_view(las@).to_set() == lookaheads(m, a),
                                forall|x: SpecLetter| #[trigger] lookaheads(m, a).contains(x) ==> x is Empty || (es_set.contains(x) && (x is Terminal || x is EndSign)),
                                forall|j: int| 0 <= j < self@.len() ==> items1_view(ans@).contains(#[trigger] self@[j]),
                                forall|j: int| n0 <= j < ans@.len() ==> items1_view(cands@).contains(#[trigger] items1_view(ans@)[j]),
                                forall|j: int| 0 <= j < ans@.len() ==> least_closed(init, edge).contains(#[trigger] items1_view(ans@)[j]),
                                forall|j: int| 0 <= j < ans@.len() ==> item1_ok(rules, m, #[trigger] items1_view(ans@)[j]),
                                forall|j: int| 0 <= j < ans@.len() ==> item_within(#[trigger] items1_view(ans@)[j], es_set),
                                forall|j: int, b: SpecItem1| 0 <= j < idx && #[trigger] edge(items1_view(ans@)[j], b) ==> items1_view(ans@).contains(b),
                                forall|k2: int, e: SpecLetter|
                                    0 <= k2 < k && rules[k2].left == a.y[0] && lookaheads(m, a).contains(e) && !(e is Empty) ==> items1_view(ans@).contains(
                                        #[trigger] cand_item(rules[k2], e),
                                    ),
                                forall|j2: int|
                                    0 <= j2 < j && !(seq_view(las@)[j2] is Empty) ==> items1_view(ans@).contains(
                                        #[trigger] cand_item(rules[k as int], seq_view(las@)[j2]),
                                    ),
                        {
                            assert(seq_view(las@)[j as int] == las@[j as int]@);
                            if !las[j].is_empty() {
                                let nb = LR1Item::from(b_letter.clone(), Vec::new(), clone_letters(&body), las[j].clone());
                                let ghost e = las@[j as int]@;
                                assert(nb@.x =~= Seq::<SpecLetter>::empty());
                                assert(nb@ == cand_item(rules[k as int], e));
                                if !contains_item1(&ans, &nb) {
                                    let ghost before = items1_view(ans@);
                                    proof {
                                        assert(seq_view(las@).to_set().contains(e));
                                        assert(lookaheads(m, a).contains(e));
                                        assert(edge(a, nb@));
                                        lemma_least_closed_step(init, edge, a, nb@);
                                        assert(es_set.contains(e));
                                        let je = choose|je: int| 0 <= je < seq_view(es@).len() && seq_view(es@)[je] == e;
                                        assert(es@[je]@ == e);
                                        assert(items1_view(cands@).contains(cand_item(rules[k as int], es@[je]@)));
                                        assert(context1_ok(rules, ffset));
                                        assert(rule_ok1(rules, m, rules[k as int]));
                                        assert forall|i: int| 0 <= i < nb@.y.len() implies letter_ok(rules, m, #[trigger] nb@.y[i]) && es_set.contains(nb@.y[i]) by {
                                            assert(nb@.y[i] == rules[k as int].right[i]);
                                        }
                                    }
                                    ans.push(nb);
                                    proof {
                                        broadcast use vstd::seq_lib::lemma_seq_contains_after_push;
                                        lemma_items1_push(ans@.drop_last(), nb);
                                        assert(ans@.drop_last() =~= ans@.subrange(0, ans@.len() - 1));
                                        assert(items1_view(ans@) == before.push(nb@));
                                        lemma_push_no_dup(before, nb@);
                                        assert forall|jj: int| 0 <= jj < ans@.len() implies least_closed(init, edge).contains(#[trigger] items1_view(ans@)[jj]) && item1_ok(rules, m, items1_view(ans@)[jj]) && item_within(items1_view(ans@)[jj], es_set) by {
                                            if jj < before.len() {
                                                assert(items1_view(ans@)[jj] == before[jj]);
                                            }
                                        }
                                        assert forall|jj: int| n0 <= jj < ans@.len() implies items1_view(cands@).contains(#[trigger] items1_view(ans@)[jj]) by {
                                            if jj < before.len() {
                                                assert(items1_view(ans@)[jj] == before[jj]);
                                            }
                                        }
                                        assert forall|jj: int, b: SpecItem1| 0 <= jj < idx && #[trigger] edge(items1_view(ans@)[jj], b) implies items1_view(ans@).contains(b) by {
                                            assert(items1_view(ans@)[jj] == before[jj]);
                                        }
                                        assert(items1_view(ans@)[idx as int] == a);
                                    }
                                }
                            }
                            proof {
                                broadcast use vstd::seq_lib::lemma_seq_contains_after_push;
                            }
                        }
                        proof {
                            assert forall|e: SpecLetter| lookaheads(m, a).contains(e) && !(e is Empty) implies items1_view(ans@).contains(
                                #[trigger] cand_item(rules[k as int], e)) by {
                                assert(seq_view(las@).to_set().contains(e));
                                let j2 = choose|j2: int| 0 <= j2 < seq_view(las@).len() && seq_view(las@)[j2] == e;
                            }
                        }
                    }
                }
                proof {
                    assert forall|j: int, b: SpecItem1| 0 <= j < idx + 1 && #[trigger] edge(items1_view(ans@)[j], b) implies items1_view(ans@).contains(b) by {
                        if j == idx {
                            let k2 = choose|k2: int| 0 <= k2 < rules.len() && (#[trigger] rules[k2]).left == a.y[0] && b.y == rule_body(rules[k2]);
                            assert(b.x =~= Seq::<SpecLetter>::empty());
                            assert(b == cand_item(rules[k2], b.expected));
                        }
                    }
                }
            } else {
                proof {
                    assert forall|j: int, b: SpecItem1| 0 <= j < idx + 1 && #[trigger] edge(items1_view(ans@)[j], b) implies items1_view(ans@).contains(b) by {
                        if j == idx {
                            if a.y.len() > 0 {
                                assert(a.y[0] == ans@[idx as int].y@[0]@);
                            }
                        }
                    }
                }
            }
            idx = idx + 1;
        }
        proof {
            let s = items1_view(ans@).to_set();
            assert(init.subset_of(s)) by {
                assert forall|it: SpecItem1| init.contains(it) implies s.contains(it) by {
                    let j = choose|j: int| 0 <= j < self@.len() && self@[j] == it;
                }
            }
            assert(closed_under(edge, s)) by {
                assert forall|u: SpecItem1, v: SpecItem1| s.contains(u) && #[trigger] edge(u, v) implies s.contains(v) by {
                    let j = choose|j: int| 0 <= j < items1_view(ans@).len() && items1_view(ans@)[j] == u;
                }
            }
            assert(s.subset_of(least_closed(init, edge))) by {
                assert forall|it: SpecItem1| s.contains(it) implies least_closed(init, edge).contains(it) by {
                    let j = choose|j: int| 0 <= j < items1_view(ans@).len() && items1_view(ans@)[j] == it;
                }
            }
            lemma_least_closed_eq(init, edge, s);
        }
        let sorted = LR1ItemSet { items: sort_items1(&ans) };
        proof {
            lemma_same_multiset(items1_view(ans@), sorted@);
            assert forall|i: int| 0 <= i < sorted@.len() implies item1_ok(rules, m, #[trigger] sorted@[i]) by {
                assert(sorted@.to_set().contains(sorted@[i]));
                assert(items1_view(ans@).to_set().contains(sorted@[i]));
                let j = choose|j: int| 0 <= j < items1_view(ans@).len() && items1_view(ans@)[j] == sorted@[i];
            }
        }
        sorted
    }
}

/// The items `S -> : body, #` of the productions of `origin`, production after production.
pub open spec fn initial_list1(rules: Seq<SpecRule>, origin: SpecLetter) -> Seq<SpecItem1>
    decreases rules.len(),
{
    if rules.len() == 0 {
        seq![]
    } else if rules.last().left == origin {
        initial_list1(rules.drop_last(), origin).push(cand_item(rules.last(), SpecLetter::EndSign))
    } else {
        initial_list1(rules.drop_last(), origin)
    }
}

/// The items `S -> : body, #` of the productions of the start symbol.
pub open spec fn initial_items1(g: SpecGrammar) -> Set<SpecItem1> {
    Set::new(
        |it: SpecItem1| exists|k: int| 0 <= k < g.rules.len() && (#[trigger] g.rules[k]).left == g.origin && it == cand_item(g.rules[k], SpecLetter::EndSign),
    )
}

impl LR1ItemSet {
    /// The items `S -> : body, #` of the productions of the start symbol.
    pub fn from_grammar_initial(g: &Grammar) -> (res: LR1ItemSet)
        ensures
            res@.to_set() == initial_items1(g@),
            res@.to_multiset() == initial_list1(g@.rules, g@.origin).to_multiset(),
            sorted_by(res@, item1_order()),
    {
        let ghost gs = g@;
        let mut items: Vec<LR1Item> = Vec::new();
        assert(items1_view(items@) =~= initial_list1(gs.rules.take(0), gs.origin));
        for k in 0..g.rules.len()
            invariant
                gs == g@,
                items1_view(items@) == initial_list1(gs.rules.take(k as int), gs.origin),
                items1_view(items@).to_set() == Set::new(
                    |it: SpecItem1| exists|j: int| 0 <= j < k && (#[trigger] gs.rules[j]).left == gs.origin && it == cand_item(gs.rules[j], SpecLetter::EndSign),
                ),
        {
            let rule = &g.rules[k];
            assert(rule@ == gs.rules[k as int]);
            let ghost before = items1_view(items@);
            if rule.left == g.origin {
                let body = rule_body_exec(rule);
                let it = LR1Item::new_initial(rule.left.clone(), body);
                assert(it@ == cand_item(gs.rules[k as int], SpecLetter::EndSign));
                let ghost bi = items@;
                items.push(it);
                proof {
                    lemma_items1_push(bi, it);
                    before.lemma_push_to_set_commute(it@);
                }
            }
            proof {
                let news = Set::new(
                    |it: SpecItem1| exists|j: int| 0 <= j < k + 1 && (#[trigger] gs.rules[j]).left == gs.origin && it == cand_item(gs.rules[j], SpecLetter::EndSign),
                );
                assert forall|it: SpecItem1| items1_view(items@).to_set().contains(it) <==> news.contains(it) by {
                    if news.contains(it) {
                        let j = choose|j: int| 0 <= j < k + 1 && (#[trigger] gs.rules[j]).left == gs.origin && it == cand_item(gs.rules[j], SpecLetter::EndSign);
                        if j < k {
                            assert(before.to_set().contains(it));
                        }
                    }
                }
                assert(items1_view(items@).to_set() =~= news);
                assert(gs.rules.take(k + 1).drop_last() =~= gs.rules.take(k as int));
                assert(gs.rules.take(k + 1).last() == gs.rules[k as int]);
            }
        }
        assert(gs.rules.take(gs.rules.len() as int) =~= gs.rules);
        let sorted = LR1ItemSet { items: sort_items1(&items) };
        proof {
            lemma_same_multiset(items1_view(items@), sorted@);
        }
        sorted
    }

    /// Whether both sets have as many items and the items agree pairwise as LR(0) items.
    pub fn is_concentric(&self, other: &LR1ItemSet) -> (res: bool)
        ensures
            res == (self@.len() == other@.len() && forall|i: int| 0 <= i < self@.len() ==> spec_lr0_equal(#[trigger] self@[i], other@[i])),
    {
        if self.items.len() != other.items.len() {
            return false;
        }
        for i in 0..self.items.len()
            invariant
                self@.len() == other@.len(),
                forall|j: int| 0 <= j < i ==> spec_lr0_equal(#[trigger] self@[j], other@[j]),
        {
            assert(self@[i as int] == self.items@[i as int]@ && other@[i as int] == other.items@[i as int]@);
            if !self.items[i].is_lr0_equal(&other.items[i]) {
                return false;
            }
        }
        true
    }

    /// A copy of this set.
    pub fn copy(&self) -> (res: LR1ItemSet)
        ensures
            res@ == self@,
    {
        let mut items: Vec<LR1Item> = Vec::new();
        for i in 0..self.items.len()
            invariant
                items1_view(items@) == self@.take(i as int),
        {
            let ghost before = items@;
            items.push(self.items[i].clone());
            proof {
                lemma_items1_push(before, items@.last());
                assert(self@.take(i + 1) =~= self@.take(i as int).push(self@[i as int]));
            }
        }
        assert(self@.take(self@.len() as int) =~= self@);
        LR1ItemSet { items }
    }

    /// Whether both sets hold the same items.
    pub fn same_items(&self, other: &LR1ItemSet) -> (res: bool)
        ensures
            res == (self@.to_set() == other@.to_set()),
    {
        for i in 0..self.items.len()
            invariant
                forall|j: int| 0 <= j < i ==> other@.contains(#[trigger] self@[j]),
        {
            assert(self@[i as int] == self.items@[i as int]@);
            if !contains_item1(&other.items, &self.items[i]) {
                assert(self@.to_set().contains(self@[i as int]));
                return false;
            }
        }
        for i in 0..other.items.len()
            invariant
                forall|j: int| 0 <= j < i ==> self@.contains(#[trigger] other@[j]),
        {
            assert(other@[i as int] == other.items@[i as int]@);
            if !contains_item1(&self.items, &other.items[i]) {
                assert(other@.to_set().contains(other@[i as int]));
                return false;
            }
        }
        assert(self@.to_set() =~= other@.to_set()) by {
            assert forall|it: SpecItem1| self@.to_set().contains(it) implies other@.to_set().contains(it) by {
                let j = choose|j: int| 0 <= j < self@.len() && self@[j] == it;
            }
            assert forall|it: SpecItem1| other@.to_set().contains(it) implies self@.to_set().contains(it) by {
                let j = choose|j: int| 0 <= j < other@.len() && other@[j] == it;
            }
        }
        true
    }

    /// GO(self, letter) for LR(1) items: the closure of the items with `letter` after the
    /// dot, the dot moved over it; each item once.
    pub fn go(&self, whole: &Vec<Rule>, letter: &Letter, ffset: &FirstFollowSet) -> (res: LR1ItemSet)
        requires
            letter@ is NonTerminal || letter@ is Terminal,
            context1_ok(rules_view(whole@), ffset),
            forall|i: int| 0 <= i < self@.len() ==> item1_ok(rules_view(whole@), ffset.first_set@, #[trigger] self@[i]),
        ensures
            res@.no_duplicates(),
            res@.to_set() == spec_go1(self@.to_set(), rules_view(whole@), ffset.first_set@, letter@),
            sorted_by(res@, item1_order()),
            forall|i: int| 0 <= i < res@.len() ==> item1_ok(rules_view(whole@), ffset.first_set@, #[trigger] res@[i]),
    {
        let ghost rules = rules_view(whole@);
        let ghost m = ffset.first_set@;
        let mut temp = LR1ItemSet::new();
        for i in 0..self.items.len()
            invariant
                rules == rules_view(whole@),
                m == ffset.first_set@,
                forall|i: int| 0 <= i < self@.len() ==> item1_ok(rules, m, #[trigger] self@[i]),
                forall|j: int| 0 <= j < temp@.len() ==> item1_ok(rules, m, #[trigger] temp@[j]),
                temp@.to_set() == Set::new(
                    |it: SpecItem1| exists|j: int| 0 <= j < i && self@[j].y.len() > 0 && self@[j].y[0] == letter@ && it == spec_shift1(#[trigger] self@[j]),
                ),
        {
            let item = &self.items[i];
            assert(self@[i as int] == item@);
            let ghost before = temp@;
            if item.y.len() >= 1 && item.y[0] == *letter {
                assert(item@.y[0] == item.y@[0]@);
                let sh = item.shift_right();
                let ghost bi = temp.items@;
                temp.items.push(sh);
                proof {
                    lemma_items1_push(bi, sh);
                    before.lemma_push_to_set_commute(spec_shift1(item@));
                    assert(item1_ok(rules, m, item@));
                    assert forall|k: int| 0 <= k < sh@.y.len() implies letter_ok(rules, m, #[trigger] sh@.y[k]) by {
                        assert(sh@.y[k] == item@.y[k + 1]);
                    }
                    assert forall|j: int| 0 <= j < temp@.len() implies item1_ok(rules, m, #[trigger] temp@[j]) by {
                        if j < before.len() {
                            assert(temp@[j] == before[j]);
                        }
                    }
                }
            }
            proof {
                let news = Set::new(
                    |it: SpecItem1| exists|j: int| 0 <= j < i + 1 && self@[j].y.len() > 0 && self@[j].y[0] == letter@ && it == spec_shift1(#[trigger] self@[j]),
                );
                assert forall|it: SpecItem1| temp@.to_set().contains(it) <==> news.contains(it) by {
                    if news.contains(it) {
                        let j = choose|j: int| 0 <= j < i + 1 && self@[j].y.len() > 0 && self@[j].y[0] == letter@ && it == spec_shift1(#[trigger] self@[j]);
                        if j < i {
                            assert(before.to_set().contains(it));
                        }
                    }
                }
                assert(temp@.to_set() =~= news);
            }
        }
        proof {
            assert(temp@.to_set() =~= kernel1(self@.to_set(), letter@)) by {
                assert forall|it: SpecItem1| kernel1(self@.to_set(), letter@).contains(it) implies temp@.to_set().contains(it) by {
                    let a = choose|a: SpecItem1| self@.to_set().contains(a) && a.y.len() > 0 && a.y[0] == letter@ && it == spec_shift1(a);
                    let j = choose|j: int| 0 <= j < self@.len() && self@[j] == a;
                }
                assert forall|it: SpecItem1| temp@.to_set().contains(it) implies kernel1(self@.to_set(), letter@).contains(it) by {
                    let j = choose|j: int| 0 <= j < self@.len() && self@[j].y.len() > 0 && self@[j].y[0] == letter@ && it == spec_shift1(#[trigger] self@[j]);
                    assert(self@.to_set().contains(self@[j]));
                }
            }
        }
        temp.closure(whole, ffset)
    }
}

/// The printed form of a list of items: each item on a line of its own.
pub open spec fn item_lines1(s: Seq<SpecItem1>) -> Seq<char>
    decreases s.len(),
{
    if s.len() == 0 {
        seq![]
    } else {
        item_lines1(s.drop_last()) + spec_item1_display(s.last()) + seq!['\n']
    }
}

impl LR1ItemSet {
    /// The items, each on a line of its own.
    pub fn to_string(&self) -> (res: String)
        ensures
            res@ == item_lines1(self@),
    {
        let mut s = String::new();
        for i in 0..self.items.len()
            invariant
                s@ == item_lines1(self@.take(i as int)),
        {
            let ghost before = s@;
            let t = self.items[i].to_string();
            s.append(t.as_str());
            s.append("\n");
            proof {
                reveal_strlit("\n");
            }
            assert(self@.take(i + 1).drop_last() =~= self@.take(i as int));
            assert(self@.take(i + 1).last() == self.items@[i as int]@);
        }
        assert(self@.take(self.items@.len() as int) =~= self@);
        s
    }
}

} // verus!

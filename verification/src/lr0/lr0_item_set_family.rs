use vstd::prelude::*;
use super::lr0_item::{LR0Item, SpecItem0, spec_item_at, spec_shift0};
use super::lr0_item_set::{
    LR0ItemSet, all_items0, rule_items0, initial_items0, spec_closure0, spec_go0, kernel0, closure_edge0,
};
use crate::grammar::letter::{Letter, SpecLetter, seq_view, sort_letters, clone_letters};
use crate::grammar::rule::SpecRule;
use crate::grammar::{Grammar, SpecGrammar};
use crate::utils::{closed_under, least_closed, lemma_least_closed_min, subsets_of, lemma_subsets_finite, lemma_distinct_within_len, lemma_push_no_dup};
use crate::utils::assoc::{assoc_map, last_key_index, lemma_assoc_get, lemma_assoc_absent};
use crate::utils::random::{rng_from_seed, rng_below, shuffle_indices, index_range, lemma_perm_of_range};

verus! {

/// An entry of the GO function: no successor, or the number of the successor set.
#[derive(Debug, Clone, Copy)]
pub enum GoFunctionItem {
    Error,
    Step(usize),
}

impl GoFunctionItem {
    pub fn is_err(&self) -> (res: bool)
        ensures
            res == (*self is Error),
    {
        match self {
            GoFunctionItem::Error => true,
            _ => false,
        }
    }

    /// The successor's number.
    pub fn value(&self) -> (res: usize)
        requires
            *self is Step,
        ensures
            res == self->Step_0,
    {
        match self {
            GoFunctionItem::Step(x) => *x,
            GoFunctionItem::Error => 0,
        }
    }
}

/// The item sets of a family, each as a mathematical set.
pub open spec fn sets0_view(v: Seq<LR0ItemSet>) -> Seq<Set<SpecItem0>> {
    v.map_values(|s: LR0ItemSet| s@.to_set())
}

/// The symbols a GO function is defined on: the terminals and the non terminals.
pub open spec fn signs_of(g: SpecGrammar) -> Set<SpecLetter> {
    g.terminals.to_set().union(g.non_terminals.to_set())
}

/// What an entry for `x` in the row of set `s` must be.
pub open spec fn go_entry_ok0(sets: Seq<Set<SpecItem0>>, w: Set<SpecItem0>, s: int, x: SpecLetter, item: GoFunctionItem) -> bool {
    let next = spec_go0(sets[s], w, x);
    match item {
        GoFunctionItem::Error => next == Set::<SpecItem0>::empty(),
        GoFunctionItem::Step(t) => next != Set::<SpecItem0>::empty() && t < sets.len() && sets[t as int] == next,
    }
}

/// The keys of a row of the GO function.
pub open spec fn go_keys(row: Seq<(Letter, GoFunctionItem)>) -> Seq<SpecLetter> {
    row.map_values(|e: (Letter, GoFunctionItem)| e.0@)
}

/// The canonical LR(0) item set family of a grammar with its GO function.
#[derive(Debug)]
pub struct LR0ItemSetFamily {
    pub item_sets: Vec<LR0ItemSet>,
    pub go_function: Vec<Vec<(Letter, GoFunctionItem)>>,
}

impl LR0ItemSetFamily {
    pub open spec fn sets(&self) -> Seq<Set<SpecItem0>> {
        sets0_view(self.item_sets@)
    }

    /// This is the family of `g`: set 0 is the closure of the start items, the sets
    /// are distinct, each later set is GO of an earlier one, the family is closed
    /// under GO, and the GO function records each transition.
    pub open spec fn of_grammar(&self, g: SpecGrammar) -> bool {
        let w = all_items0(g.rules);
        let sets = self.sets();
        &&& sets.len() >= 1
        &&& sets[0] == spec_closure0(initial_items0(g), w)
        &&& sets.no_duplicates()
        &&& forall|s: int| 0 <= s < sets.len() ==> (#[trigger] self.item_sets@[s])@.no_duplicates()
        &&& forall|s: int| 0 <= s < sets.len() ==> (#[trigger] sets[s]).subset_of(family_universe0(g))
        &&& forall|s: int| 1 <= s < sets.len() ==> #[trigger] reached0(sets, w, signs_of(g), s)
        &&& forall|s: int| 1 <= s < sets.len() ==> #[trigger] sets[s] != Set::<SpecItem0>::empty()
        &&& self.go_function@.len() == sets.len()
        &&& forall|s: int| 0 <= s < sets.len() ==> go_keys(#[trigger] self.go_function@[s]@).no_duplicates()
        &&& forall|s: int| 0 <= s < sets.len() ==> go_keys(#[trigger] self.go_function@[s]@).to_set() == signs_of(g)
        &&& forall|s: int, i: int|
            0 <= s < sets.len() && 0 <= i < self.go_function@[s]@.len() ==> go_entry_ok0(
                sets,
                w,
                s,
                (#[trigger] self.go_function@[s]@[i]).0@,
                self.go_function@[s]@[i].1,
            )
    }
}

/// Set `s` is GO of an earlier set over one of `signs`.
pub open spec fn reached0(sets: Seq<Set<SpecItem0>>, w: Set<SpecItem0>, signs: Set<SpecLetter>, s: int) -> bool {
    exists|t: int, x: SpecLetter| 0 <= t < s && signs.contains(x) && sets[s] == #[trigger] spec_go0(sets[t], w, x)
}

/// Every GO result of set `t` over the symbols in `signs` is empty or one of `sets`.
pub open spec fn processed0(sets: Seq<Set<SpecItem0>>, w: Set<SpecItem0>, signs: Set<SpecLetter>, t: int) -> bool {
    forall|x: SpecLetter|
        signs.contains(x) ==> #[trigger] spec_go0(sets[t], w, x) == Set::<SpecItem0>::empty() || sets.contains(
            spec_go0(sets[t], w, x),
        )
}

proof fn lemma_rule_items_in_all(rules: Seq<SpecRule>, k: int)
    requires
        0 <= k < rules.len(),
    ensures
        rule_items0(rules[k]).subset_of(all_items0(rules)),
    decreases rules.len(),
{
    if k < rules.len() - 1 {
        lemma_rule_items_in_all(rules.drop_last(), k);
        assert(rules.drop_last()[k] == rules[k]);
    }
}

proof fn lemma_shift_in_rule_items(r: SpecRule, a: SpecItem0)
    requires
        rule_items0(r).contains(a),
        a.y.len() > 0,
    ensures
        rule_items0(r).contains(spec_shift0(a)),
{
    if r.right == seq![SpecLetter::Empty] {
        assert(a.y.len() == 0);
    } else {
        let p = choose|p: int| 0 <= p <= r.right.len() && a == #[trigger] spec_item_at(r, p);
        assert(p < r.right.len());
        assert(spec_shift0(a).x =~= r.right.take(p + 1));
        assert(spec_shift0(a).y =~= r.right.skip(p + 1));
        assert(spec_shift0(a) == spec_item_at(r, p + 1));
    }
}

proof fn lemma_shift_in_all(rules: Seq<SpecRule>, a: SpecItem0)
    requires
        all_items0(rules).contains(a),
        a.y.len() > 0,
    ensures
        all_items0(rules).contains(spec_shift0(a)),
    decreases rules.len(),
{
    if rules.len() > 0 {
        if all_items0(rules.drop_last()).contains(a) {
            lemma_shift_in_all(rules.drop_last(), a);
        } else {
            lemma_shift_in_rule_items(rules.last(), a);
        }
    }
}

/// The items a family can hold: those of the productions and the start items.
pub open spec fn family_universe0(g: SpecGrammar) -> Set<SpecItem0> {
    all_items0(g.rules).union(initial_items0(g))
}

proof fn lemma_universe_shift(g: SpecGrammar, a: SpecItem0)
    requires
        family_universe0(g).contains(a),
        a.y.len() > 0,
        !(a.y[0] is Empty),
    ensures
        all_items0(g.rules).contains(spec_shift0(a)),
{
    if all_items0(g.rules).contains(a) {
        lemma_shift_in_all(g.rules, a);
    } else {
        let k = choose|k: int| 0 <= k < g.rules.len() && (#[trigger] g.rules[k]).left == g.origin && a == spec_item_at(g.rules[k], 0);
        let r = g.rules[k];
        if r.right == seq![SpecLetter::Empty] {
            assert(a.y[0] == r.right[0]);
        } else {
            assert(rule_items0(r).contains(spec_item_at(r, 0)));
            lemma_rule_items_in_all(g.rules, k);
            lemma_shift_in_all(g.rules, a);
        }
    }
}

/// GO of a set of the universe over a symbol is a set of production items.
proof fn lemma_go_in_universe(g: SpecGrammar, s: Set<SpecItem0>, x: SpecLetter)
    requires
        s.subset_of(family_universe0(g)),
        !(x is Empty),
    ensures
        spec_go0(s, all_items0(g.rules), x).subset_of(all_items0(g.rules)),
{
    let w = all_items0(g.rules);
    let k = kernel0(s, x);
    assert(k.subset_of(w)) by {
        assert forall|it: SpecItem0| k.contains(it) implies w.contains(it) by {
            let a = choose|a: SpecItem0| s.contains(a) && a.y.len() > 0 && a.y[0] == x && it == spec_shift0(a);
            lemma_universe_shift(g, a);
        }
    }
    assert(closed_under(closure_edge0(w), w));
    lemma_least_closed_min(k, closure_edge0(w), w);
}

proof fn lemma_initial_in_universe(g: SpecGrammar)
    ensures
        spec_closure0(initial_items0(g), all_items0(g.rules)).subset_of(family_universe0(g)),
{
    let w = all_items0(g.rules);
    let u = family_universe0(g);
    assert(closed_under(closure_edge0(w), u));
    lemma_least_closed_min(initial_items0(g), closure_edge0(w), u);
}

/// Distinct subsets of a finite set are no more than its subsets.
proof fn lemma_sets_bound(sets: Seq<Set<SpecItem0>>, u: Set<SpecItem0>)
    requires
        sets.no_duplicates(),
        u.finite(),
        forall|s: int| 0 <= s < sets.len() ==> (#[trigger] sets[s]).subset_of(u),
    ensures
        sets.len() <= subsets_of(u).len(),
{
    lemma_subsets_finite(u);
    assert forall|s: int| 0 <= s < sets.len() implies subsets_of(u).contains(#[trigger] sets[s]) by {}
    lemma_distinct_within_len(sets, subsets_of(u));
}

proof fn lemma_sets0_push(v: Seq<LR0ItemSet>, s: LR0ItemSet)
    ensures
        sets0_view(v.push(s)) == sets0_view(v).push(s@.to_set()),
{
    assert(sets0_view(v.push(s)) =~= sets0_view(v).push(s@.to_set()));
}

/// The number of the set in `sets` holding the same items as `s`.
fn find_set0(sets: &Vec<LR0ItemSet>, s: &LR0ItemSet) -> (res: Option<usize>)
    ensures
        match res {
            Some(i) => i < sets@.len() && sets0_view(sets@)[i as int] == s@.to_set(),
            None => !sets0_view(sets@).contains(s@.to_set()),
        },
{
    for i in 0..sets.len()
        invariant
            forall|j: int| 0 <= j < i ==> sets0_view(sets@)[j] != s@.to_set(),
    {
        if sets[i].same_items(s) {
            return Some(i);
        }
    }
    None
}

/// The terminals and the non terminals of `g`, in the order of `Ord`.
pub(crate) fn sorted_signs(g: &Grammar) -> (res: Vec<Letter>)
    requires
        forall|i: int| 0 <= i < g@.terminals.len() ==> (#[trigger] g@.terminals[i]) is Terminal,
        forall|i: int| 0 <= i < g@.non_terminals.len() ==> (#[trigger] g@.non_terminals[i]) is NonTerminal,
    ensures
        seq_view(res@).to_set() == signs_of(g@),
        res@.len() == g@.terminals.len() + g@.non_terminals.len(),
        forall|i: int| 0 <= i < res@.len() ==> (#[trigger] res@[i])@ is Terminal || res@[i]@ is NonTerminal,
        g@.wf() ==> seq_view(res@).no_duplicates(),
{
    let mut signs = clone_letters(&g.terminals);
    let mut nts = clone_letters(&g.non_terminals);
    let ghost a = signs@;
    let ghost b = nts@;
    signs.append(&mut nts);
    let ghost before = signs@;
    assert(before == a + b);
    assert(seq_view(a) == g@.terminals);
    assert(seq_view(b) == g@.non_terminals);
    sort_letters(&mut signs);
    proof {
        before.to_multiset_ensures();
        signs@.to_multiset_ensures();
        assert forall|l: Letter| signs@.contains(l) <==> before.contains(l) by {
            assert(signs@.contains(l) <==> signs@.to_multiset().count(l) > 0);
            assert(before.contains(l) <==> before.to_multiset().count(l) > 0);
        }
        assert forall|x: SpecLetter| seq_view(signs@).to_set().contains(x) <==> signs_of(g@).contains(x) by {
            if seq_view(signs@).to_set().contains(x) {
                let i = choose|i: int| 0 <= i < seq_view(signs@).len() && seq_view(signs@)[i] == x;
                assert(signs@.contains(signs@[i]));
                assert(before.contains(signs@[i]));
                let j = choose|j: int| 0 <= j < before.len() && before[j] == signs@[i];
                if j < a.len() {
                    assert(seq_view(a)[j] == a[j]@);
                    assert(g@.terminals[j] == x);
                    assert(g@.terminals.contains(x));
                } else {
                    assert(seq_view(b)[j - a.len()] == b[j - a.len()]@);
                    assert(g@.non_terminals[j - a.len()] == x);
                    assert(g@.non_terminals.contains(x));
                }
            }
            if signs_of(g@).contains(x) {
                let l = if g@.terminals.contains(x) {
                    let j = choose|j: int| 0 <= j < g@.terminals.len() && g@.terminals[j] == x;
                    assert(before[j] == a[j]);
                    assert(seq_view(a)[j] == a[j]@);
                    a[j]
                } else {
                    let j = choose|j: int| 0 <= j < g@.non_terminals.len() && g@.non_terminals[j] == x;
                    assert(before[a.len() + j] == b[j]);
                    assert(seq_view(b)[j] == b[j]@);
                    b[j]
                };
                assert(l@ == x);
                assert(before.contains(l));
                assert(signs@.contains(l));
                let i = choose|i: int| 0 <= i < signs@.len() && signs@[i] == l;
                assert(seq_view(signs@)[i] == x);
            }
        }
        assert(seq_view(signs@).to_set() =~= signs_of(g@));
        assert forall|i: int| 0 <= i < signs@.len() implies (#[trigger] signs@[i])@ is Terminal || signs@[i]@ is NonTerminal by {
            assert(signs@.contains(signs@[i]));
            assert(before.contains(signs@[i]));
            let j = choose|j: int| 0 <= j < before.len() && before[j] == signs@[i];
            if j < a.len() {
                assert(seq_view(a)[j] == a[j]@);
                assert(g@.terminals[j] == a[j]@);
            } else {
                assert(seq_view(b)[j - a.len()] == b[j - a.len()]@);
                assert(g@.non_terminals[j - a.len()] == b[j - a.len()]@);
            }
        }
        if g@.wf() {
            assert(seq_view(signs@).no_duplicates()) by {
                assert forall|i: int, j: int| 0 <= i < j < signs@.len() implies seq_view(signs@)[i] != seq_view(signs@)[j] by {
                    if signs@[i]@ == signs@[j]@ {
                        // the multiset of the sorted letters is that of the concatenation, whose views are distinct
                        lemma_views_distinct(a, b, g@);
                        lemma_multiset_views(before, signs@, i, j);
                    }
                }
            }
        }
    }
    signs
}

/// The views of the terminals followed by the non terminals of a well formed grammar are distinct.
proof fn lemma_views_distinct(a: Seq<Letter>, b: Seq<Letter>, g: SpecGrammar)
    requires
        g.wf(),
        seq_view(a) == g.terminals,
        seq_view(b) == g.non_terminals,
    ensures
        seq_view(a + b).no_duplicates(),
{
    let c = a + b;
    assert forall|i: int, j: int| 0 <= i < j < c.len() implies seq_view(c)[i] != seq_view(c)[j] by {
        if j < a.len() {
            assert(seq_view(a)[i] == c[i]@ && seq_view(a)[j] == c[j]@);
        } else if i >= a.len() {
            assert(seq_view(b)[i - a.len()] == c[i]@ && seq_view(b)[j - a.len()] == c[j]@);
        } else {
            assert(seq_view(a)[i] == c[i]@ && seq_view(b)[j - a.len()] == c[j]@);
            assert(g.terminals[i] is Terminal);
            assert(g.non_terminals[j - a.len()] is NonTerminal);
        }
    }
}

/// A rearrangement of a sequence with distinct views has distinct views.
proof fn lemma_multiset_views(s: Seq<Letter>, t: Seq<Letter>, i: int, j: int)
    requires
        s.to_multiset() == t.to_multiset(),
        seq_view(s).no_duplicates(),
        0 <= i < j < t.len(),
    ensures
        t[i]@ != t[j]@,
{
    if t[i]@ == t[j]@ {
        s.to_multiset_ensures();
        t.to_multiset_ensures();
        assert(t.contains(t[i]));
        assert(t.contains(t[j]));
        assert(t.to_multiset().count(t[i]) > 0);
        assert(t.to_multiset().count(t[j]) > 0);
        assert(s.contains(t[i]));
        assert(s.contains(t[j]));
        let a = choose|a: int| 0 <= a < s.len() && s[a] == t[i];
        let b = choose|b: int| 0 <= b < s.len() && s[b] == t[j];
        assert(seq_view(s)[a] == seq_view(s)[b]);
        if a == b {
            // t holds the letter at least twice, s only once
            assert(t[i] == t[j]);
            lemma_count_two(t, i, j);
            lemma_count_one(s, a);
            assert(false);
        }
    }
}

proof fn lemma_count_two(t: Seq<Letter>, i: int, j: int)
    requires
        0 <= i < j < t.len(),
        t[i] == t[j],
    ensures
        t.to_multiset().count(t[i]) >= 2,
    decreases t.len(),
{
    t.to_multiset_ensures();
    let u = t.drop_last();
    assert(t =~= u.push(t.last()));
    u.to_multiset_ensures();
    if j == t.len() - 1 {
        assert(u.contains(t[i])) by { assert(u[i] == t[i]); }
        assert(u.to_multiset().count(t[i]) > 0);
    } else {
        assert(u[i] == t[i] && u[j] == t[j]);
        lemma_count_two(u, i, j);
    }
}

proof fn lemma_count_one(s: Seq<Letter>, a: int)
    requires
        0 <= a < s.len(),
        seq_view(s).no_duplicates(),
    ensures
        s.to_multiset().count(s[a]) <= 1,
    decreases s.len(),
{
    s.to_multiset_ensures();
    let u = s.drop_last();
    assert(s =~= u.push(s.last()));
    u.to_multiset_ensures();
    assert(seq_view(u).no_duplicates()) by {
        assert forall|x: int, y: int| 0 <= x < y < u.len() implies seq_view(u)[x] != seq_view(u)[y] by {
            assert(seq_view(s)[x] == seq_view(u)[x]);
            assert(seq_view(s)[y] == seq_view(u)[y]);
        }
    }
    if a == s.len() - 1 {
        assert(!u.contains(s[a])) by {
            if u.contains(s[a]) {
                let k = choose|k: int| 0 <= k < u.len() && u[k] == s[a];
                assert(seq_view(s)[k] == seq_view(s)[a]);
            }
        }
    } else {
        assert(u[a] == s[a]);
        lemma_count_one(u, a);
        assert(s.last() != s[a]) by {
            assert(seq_view(s)[s.len() - 1] != seq_view(s)[a]);
        }
    }
}

/// GO of set `t` over `x` is empty or one of `sets`.
pub open spec fn go_known0(sets: Seq<Set<SpecItem0>>, w: Set<SpecItem0>, t: int, x: SpecLetter) -> bool {
    spec_go0(sets[t], w, x) == Set::<SpecItem0>::empty() || sets.contains(spec_go0(sets[t], w, x))
}

proof fn lemma_processed_push(sets: Seq<Set<SpecItem0>>, n: Set<SpecItem0>, w: Set<SpecItem0>, signs: Set<SpecLetter>, t: int)
    requires
        0 <= t < sets.len(),
        processed0(sets, w, signs, t),
    ensures
        processed0(sets.push(n), w, signs, t),
{
    assert(sets.push(n)[t] == sets[t]);
    assert forall|x: SpecLetter| signs.contains(x) implies #[trigger] spec_go0(sets.push(n)[t], w, x) == Set::<SpecItem0>::empty()
        || sets.push(n).contains(spec_go0(sets.push(n)[t], w, x)) by {
        if spec_go0(sets[t], w, x) != Set::<SpecItem0>::empty() {
            let k = choose|k: int| 0 <= k < sets.len() && sets[k] == spec_go0(sets[t], w, x);
            assert(sets.push(n)[k] == sets[k]);
        }
    }
}

proof fn lemma_reached_push(sets: Seq<Set<SpecItem0>>, n: Set<SpecItem0>, w: Set<SpecItem0>, signs: Set<SpecLetter>, s: int)
    requires
        0 <= s < sets.len(),
        reached0(sets, w, signs, s),
    ensures
        reached0(sets.push(n), w, signs, s),
{
    let (t, x) = choose|t: int, x: SpecLetter| 0 <= t < s && signs.contains(x) && sets[s] == #[trigger] spec_go0(sets[t], w, x);
    assert(sets.push(n)[t] == sets[t]);
    assert(sets.push(n)[s] == sets[s]);
    assert(sets.push(n)[s] == spec_go0(sets.push(n)[t], w, x));
}

impl LR0ItemSetFamily {
    /// Builds the family by a search from the closure of the start items, taking the
    /// next set to expand and the order of the symbols at random from `seed`; the
    /// numbering of the sets depends on the seed, the family does not.
    #[verifier::rlimit(60)]
    pub fn from_grammar_with_seed(g: &Grammar, seed: u64) -> (res: LR0ItemSetFamily)
        requires
            g@.wf(),
        ensures
            res.of_grammar(g@),
    {
        let whole = LR0ItemSet::from_grammar(g);
        let init_items = LR0ItemSet::from_grammar_initial(g);
        let initial_set = init_items.closure(&whole);
        let signs = sorted_signs(g);
        let n = signs.len();
        let ghost w = all_items0(g@.rules);
        let ghost u = family_universe0(g@);
        let ghost signs_set = signs_of(g@);
        let mut rng = rng_from_seed(seed);
        let mut perm = index_range(n);
        let ghost range = perm@;
        proof {
            broadcast use vstd::seq_lib::seq_to_set_is_finite;
            assert(u =~= whole@.to_set().union(init_items@.to_set()));
            lemma_initial_in_universe(g@);
        }
        let mut item_sets: Vec<LR0ItemSet> = Vec::new();
        item_sets.push(initial_set);
        let mut q: Vec<usize> = Vec::new();
        q.push(0);
        proof {
            assert(sets0_view(item_sets@) =~= seq![spec_closure0(initial_items0(g@), w)]);
            assert(q@[0] == 0);
            assert(q@.contains(0usize));
        }
        while q.len() > 0
            invariant
                g@.wf(),
                whole@.to_set() == w,
                w == all_items0(g@.rules),
                u == family_universe0(g@),
                u.finite(),
                signs_set == signs_of(g@),
                seq_view(signs@).to_set() == signs_set,
                signs@.len() == n,
                forall|i: int| 0 <= i < n ==> (#[trigger] signs@[i])@ is Terminal || signs@[i]@ is NonTerminal,
                perm@.to_multiset() == range.to_multiset(),
                range.len() == n,
                forall|i: int| 0 <= i < n ==> range[i] == i,
                sets0_view(item_sets@).len() >= 1,
                sets0_view(item_sets@)[0] == spec_closure0(initial_items0(g@), w),
                sets0_view(item_sets@).no_duplicates(),
                forall|s: int| 0 <= s < item_sets@.len() ==> (#[trigger] item_sets@[s])@.no_duplicates(),
                forall|s: int| 0 <= s < item_sets@.len() ==> (#[trigger] sets0_view(item_sets@)[s]).subset_of(u),
                forall|s: int| 1 <= s < item_sets@.len() ==> #[trigger] reached0(sets0_view(item_sets@), w, signs_set, s),
                forall|s: int| 1 <= s < item_sets@.len() ==> #[trigger] sets0_view(item_sets@)[s] != Set::<SpecItem0>::empty(),
                forall|j: int| 0 <= j < q@.len() ==> (#[trigger] q@[j]) < item_sets@.len(),
                forall|t: int|
                    0 <= t < item_sets@.len() && !q@.contains(t as usize) ==> #[trigger] processed0(
                        sets0_view(item_sets@),
                        w,
                        signs_set,
                        t,
                    ),
            decreases subsets_of(u).len() - item_sets@.len(), q@.len(),
        {
            proof {
                lemma_sets_bound(sets0_view(item_sets@), u);
            }
            let ghost q_old = q@;
            let ran = rng_below(&mut rng, q.len());
            let p = q.remove(ran);
            shuffle_indices(&mut perm, &mut rng);
            proof {
                lemma_perm_of_range(perm@, range, n as int);
            }
            let ghost len0 = item_sets@.len() as int;
            let ghost q0 = q@;
            let ghost mut added: int = 0;
            for j in 0..n
                invariant
                    g@.wf(),
                    whole@.to_set() == w,
                    w == all_items0(g@.rules),
                    u == family_universe0(g@),
                    u.finite(),
                    signs_set == signs_of(g@),
                    seq_view(signs@).to_set() == signs_set,
                    signs@.len() == n,
                    forall|i: int| 0 <= i < n ==> (#[trigger] signs@[i])@ is Terminal || signs@[i]@ is NonTerminal,
                    perm@.to_multiset() == range.to_multiset(),
                    range.len() == n,
                    forall|i: int| 0 <= i < n ==> range[i] == i,
                    perm@.len() == n,
                    forall|i: int| 0 <= i < perm@.len() ==> perm@[i] < n,
                    0 <= p < len0,
                    0 <= added,
                    item_sets@.len() == len0 + added,
                    q@.len() == q0.len() + added,
                    q0 == q_old.remove(ran as int),
                    0 <= ran < q_old.len(),
                    q_old[ran as int] == p,
                    forall|k: int| 0 <= k < q0.len() ==> q@[k] == q0[k],
                    forall|k: int| q0.len() <= k < q@.len() ==> #[trigger] q@[k] == len0 + (k - q0.len()),
                    sets0_view(item_sets@).len() >= 1,
                    sets0_view(item_sets@)[0] == spec_closure0(initial_items0(g@), w),
                    sets0_view(item_sets@).no_duplicates(),
                    forall|s: int| 0 <= s < item_sets@.len() ==> (#[trigger] item_sets@[s])@.no_duplicates(),
                    forall|s: int| 0 <= s < item_sets@.len() ==> (#[trigger] sets0_view(item_sets@)[s]).subset_of(u),
                    forall|s: int| 1 <= s < item_sets@.len() ==> #[trigger] reached0(sets0_view(item_sets@), w, signs_set, s),
                    forall|s: int| 1 <= s < item_sets@.len() ==> #[trigger] sets0_view(item_sets@)[s] != Set::<SpecItem0>::empty(),
                    forall|k: int| 0 <= k < q@.len() ==> (#[trigger] q@[k]) < item_sets@.len(),
                    forall|t: int|
                        0 <= t < len0 && t != p && !q_old.contains(t as usize) ==> #[trigger] processed0(
                            sets0_view(item_sets@),
                            w,
                            signs_set,
                            t,
                        ),
                    forall|jj: int| 0 <= jj < j ==> go_known0(sets0_view(item_sets@), w, p as int, signs@[#[trigger] perm@[jj] as int]@),
            {
                let k = perm[j];
                let letter = &signs[k];
                let ghost x = letter@;
                assert(item_sets@[p as int]@.to_set() == sets0_view(item_sets@)[p as int]);
                let temp = item_sets[p].go(&whole, letter);
                let ghost sets_before = sets0_view(item_sets@);
                if !temp.is_empty() {
                    match find_set0(&item_sets, &temp) {
                        Some(idx) => {
                            assert(sets_before[idx as int] == temp@.to_set());
                        },
                        None => {
                            let ghost news = temp@.to_set();
                            let ghost before_items = item_sets@;
                            q.push(item_sets.len());
                            item_sets.push(temp);
                            proof {
                                lemma_sets0_push(before_items, item_sets@.last());
                                assert(sets0_view(item_sets@) == sets_before.push(news));
                                lemma_push_no_dup(sets_before, news);
                                assert(news.contains(item_sets@.last()@[0]));
                                lemma_go_in_universe(g@, sets_before[p as int], x);
                                assert forall|s: int| 1 <= s < item_sets@.len() implies #[trigger] reached0(sets0_view(item_sets@), w, signs_set, s) by {
                                    if s < len0 + added {
                                        lemma_reached_push(sets_before, news, w, signs_set, s);
                                    } else {
                                        assert(sets0_view(item_sets@)[p as int] == sets_before[p as int]);
                                        assert(signs_set.contains(x)) by {
                                            assert(seq_view(signs@)[k as int] == x);
                                        }
                                        assert(sets0_view(item_sets@)[s] == spec_go0(sets0_view(item_sets@)[p as int], w, x));
                                    }
                                }
                                assert forall|t: int|
                                    0 <= t < len0 && t != p && !q_old.contains(t as usize) implies #[trigger] processed0(
                                        sets0_view(item_sets@),
                                        w,
                                        signs_set,
                                        t,
                                    ) by {
                                    lemma_processed_push(sets_before, news, w, signs_set, t);
                                }
                                assert forall|s: int| 0 <= s < item_sets@.len() implies (#[trigger] sets0_view(item_sets@)[s]).subset_of(u) by {
                                    if s < len0 + added {
                                        assert(sets0_view(item_sets@)[s] == sets_before[s]);
                                    }
                                }
                                assert forall|s: int| 1 <= s < item_sets@.len() implies #[trigger] sets0_view(item_sets@)[s] != Set::<SpecItem0>::empty() by {
                                    if s < len0 + added {
                                        assert(sets0_view(item_sets@)[s] == sets_before[s]);
                                    }
                                }
                                assert forall|jj: int| 0 <= jj < j implies go_known0(sets0_view(item_sets@), w, p as int, signs@[#[trigger] perm@[jj] as int]@) by {
                                    let y = signs@[perm@[jj] as int]@;
                                    assert(sets0_view(item_sets@)[p as int] == sets_before[p as int]);
                                    if spec_go0(sets_before[p as int], w, y) != Set::<SpecItem0>::empty() {
                                        let m = choose|m: int| 0 <= m < sets_before.len() && sets_before[m] == spec_go0(sets_before[p as int], w, y);
                                        assert(sets0_view(item_sets@)[m] == sets_before[m]);
                                    }
                                }
                                assert(sets0_view(item_sets@)[len0 + added] == news);
                                added = added + 1;
                            }
                        },
                    }
                }
                proof {
                    let sets = sets0_view(item_sets@);
                    assert(sets[p as int] == sets_before[p as int]);
                    if temp@.len() == 0 {
                        assert(temp@.to_set() =~= Set::<SpecItem0>::empty());
                    } else {
                        assert(sets.contains(temp@.to_set()));
                    }
                    assert(go_known0(sets, w, p as int, x));
                    assert(signs@[perm@[j as int] as int]@ == x);
                }
            }
            let total = item_sets.len();
            proof {
                let sets = sets0_view(item_sets@);
                assert(processed0(sets, w, signs_set, p as int)) by {
                    assert forall|x: SpecLetter| signs_set.contains(x) implies #[trigger] spec_go0(sets[p as int], w, x) == Set::<SpecItem0>::empty()
                        || sets.contains(spec_go0(sets[p as int], w, x)) by {
                        let i = choose|i: int| 0 <= i < seq_view(signs@).len() && seq_view(signs@)[i] == x;
                        assert(perm@.contains(i as usize));
                        let jj = choose|jj: int| 0 <= jj < perm@.len() && perm@[jj] == i as usize;
                        assert(signs@[perm@[jj] as int]@ == x);
                    }
                }
                assert forall|t: int|
                    0 <= t < item_sets@.len() && !q@.contains(t as usize) implies #[trigger] processed0(sets, w, signs_set, t) by {
                    if t >= len0 {
                        assert(q@[q0.len() + (t - len0)] == t);
                        assert(false);
                    } else if t != p {
                        if q_old.contains(t as usize) {
                            let i = choose|i: int| 0 <= i < q_old.len() && q_old[i] == t as usize;
                            assert(t < total);
                            assert((t as usize) as int == t);
                            if i < ran {
                                assert(q0[i] == t);
                                assert(q@[i] == t);
                            } else {
                                assert(i != ran);
                                assert(q0[i - 1] == t);
                                assert(q@[i - 1] == t);
                            }
                        }
                    }
                }
                lemma_sets_bound(sets, u);
            }
        }
        let mut go_function: Vec<Vec<(Letter, GoFunctionItem)>> = Vec::new();
        for s in 0..item_sets.len()
            invariant
                g@.wf(),
                whole@.to_set() == w,
                w == all_items0(g@.rules),
                u == family_universe0(g@),
                signs_set == signs_of(g@),
                seq_view(signs@).to_set() == signs_set,
                seq_view(signs@).no_duplicates(),
                signs@.len() == n,
                forall|i: int| 0 <= i < n ==> (#[trigger] signs@[i])@ is Terminal || signs@[i]@ is NonTerminal,
                go_function@.len() == s,
                forall|t: int| 0 <= t < item_sets@.len() ==> #[trigger] processed0(sets0_view(item_sets@), w, signs_set, t),
                forall|t: int| 0 <= t < s ==> go_keys(#[trigger] go_function@[t]@) == seq_view(signs@),
                forall|t: int, i: int|
                    0 <= t < s && 0 <= i < go_function@[t]@.len() ==> go_entry_ok0(
                        sets0_view(item_sets@),
                        w,
                        t,
                        (#[trigger] go_function@[t]@[i]).0@,
                        go_function@[t]@[i].1,
                    ),
        {
            let mut row: Vec<(Letter, GoFunctionItem)> = Vec::new();
            for k in 0..n
                invariant
                    whole@.to_set() == w,
                    signs@.len() == n,
                    forall|i: int| 0 <= i < n ==> (#[trigger] signs@[i])@ is Terminal || signs@[i]@ is NonTerminal,
                    seq_view(signs@).to_set() == signs_set,
                    0 <= s < item_sets@.len(),
                    processed0(sets0_view(item_sets@), w, signs_set, s as int),
                    go_keys(row@) == seq_view(signs@).take(k as int),
                    forall|i: int|
                        0 <= i < row@.len() ==> go_entry_ok0(sets0_view(item_sets@), w, s as int, (#[trigger] row@[i]).0@, row@[i].1),
            {
                let letter = &signs[k];
                assert(item_sets@[s as int]@.to_set() == sets0_view(item_sets@)[s as int]);
                let temp = item_sets[s].go(&whole, letter);
                let entry = if temp.is_empty() {
                    assert(temp@.to_set() =~= Set::<SpecItem0>::empty());
                    GoFunctionItem::Error
                } else {
                    assert(temp@.to_set().contains(temp@[0]));
                    match find_set0(&item_sets, &temp) {
                        Some(t) => GoFunctionItem::Step(t),
                        None => {
                            assert(signs_set.contains(letter@)) by {
                                assert(seq_view(signs@)[k as int] == letter@);
                            }
                            assert(false);
                            GoFunctionItem::Error
                        },
                    }
                };
                let ghost before = row@;
                row.push((letter.clone(), entry));
                proof {
                    assert(go_keys(row@) =~= go_keys(before).push(letter@));
                    assert(seq_view(signs@).take(k + 1) =~= seq_view(signs@).take(k as int).push(letter@));
                }
            }
            assert(seq_view(signs@).take(n as int) =~= seq_view(signs@));
            go_function.push(row);
        }
        let res = LR0ItemSetFamily { item_sets, go_function };
        assert(res.sets() == sets0_view(res.item_sets@));
        res
    }

    /// The family built with seed 0.
    pub fn from_grammar(g: &Grammar) -> (res: LR0ItemSetFamily)
        requires
            g@.wf(),
        ensures
            res.of_grammar(g@),
    {
        LR0ItemSetFamily::from_grammar_with_seed(g, 0)
    }
}

/// A row of the GO function as a map.
pub open spec fn go_row_map(row: Seq<(Letter, GoFunctionItem)>) -> Map<SpecLetter, GoFunctionItem> {
    assoc_map(row.map_values(|e: (Letter, GoFunctionItem)| (e.0@, e.1)))
}

/// The entry of `k` in a row of the GO function, if there is one.
pub fn go_get(row: &Vec<(Letter, GoFunctionItem)>, k: &Letter) -> (res: Option<GoFunctionItem>)
    ensures
        match res {
            Some(v) => go_row_map(row@).dom().contains(k@) && go_row_map(row@)[k@] == v && exists|i: int|
                0 <= i < row@.len() && row@[i].0@ == k@ && row@[i].1 == v,
            None => !go_row_map(row@).dom().contains(k@) && forall|i: int| 0 <= i < row@.len() ==> (#[trigger] row@[i]).0@ != k@,
        },
{
    let ghost vw = row@.map_values(|e: (Letter, GoFunctionItem)| (e.0@, e.1));
    match last_key_index(row, k) {
        Some(i) => {
            proof {
                assert forall|j: int| i < j < vw.len() implies (#[trigger] vw[j]).0 != vw[i as int].0 by {
                    assert(vw[j].0 == row@[j].0@);
                }
                lemma_assoc_get(vw, i as int);
            }
            Some(row[i].1)
        },
        None => {
            proof {
                assert forall|j: int| 0 <= j < vw.len() implies (#[trigger] vw[j]).0 != k@ by {
                    assert(vw[j].0 == row@[j].0@);
                }
                lemma_assoc_absent(vw, k@);
            }
            None
        },
    }
}

/// Every set of one family of `g` is a set of any other family of `g`.
proof fn lemma_family_set_in(g: SpecGrammar, f1: &LR0ItemSetFamily, f2: &LR0ItemSetFamily, s: int)
    requires
        f1.of_grammar(g),
        f2.of_grammar(g),
        0 <= s < f1.sets().len(),
    ensures
        f2.sets().contains(f1.sets()[s]),
    decreases s,
{
    let w = all_items0(g.rules);
    let a = f1.sets();
    let b = f2.sets();
    if s == 0 {
        assert(b[0] == a[0]);
    } else {
        assert(reached0(a, w, signs_of(g), s));
        let (t, x) = choose|t: int, x: SpecLetter| 0 <= t < s && signs_of(g).contains(x) && a[s] == #[trigger] spec_go0(a[t], w, x);
        lemma_family_set_in(g, f1, f2, t);
        let u = choose|u: int| 0 <= u < b.len() && b[u] == a[t];
        lemma_go_row_has(f2, g, u, x);
        let i = choose|i: int| 0 <= i < f2.go_function@[u]@.len() && (#[trigger] f2.go_function@[u]@[i]).0@ == x;
        let item = f2.go_function@[u]@[i].1;
        assert(go_entry_ok0(b, w, u, x, item));
        assert(a[s] != Set::<SpecItem0>::empty());
        match item {
            GoFunctionItem::Error => {},
            GoFunctionItem::Step(v) => {
                assert(b[v as int] == a[s]);
            },
        }
    }
}

/// The family of a grammar does not depend on the order in which it was built (the seed):
/// any two families of `g` hold the same item sets, as many of them.
pub proof fn law_family_sets_unique(g: SpecGrammar, f1: &LR0ItemSetFamily, f2: &LR0ItemSetFamily)
    requires
        f1.of_grammar(g),
        f2.of_grammar(g),
    ensures
        f1.sets().to_set() == f2.sets().to_set(),
        f1.sets().len() == f2.sets().len(),
{
    let a = f1.sets();
    let b = f2.sets();
    assert forall|x: Set<SpecItem0>| a.to_set().contains(x) <==> b.to_set().contains(x) by {
        if a.contains(x) {
            let s = choose|s: int| 0 <= s < a.len() && a[s] == x;
            lemma_family_set_in(g, f1, f2, s);
        }
        if b.contains(x) {
            let s = choose|s: int| 0 <= s < b.len() && b[s] == x;
            lemma_family_set_in(g, f2, f1, s);
        }
    }
    assert(a.to_set() =~= b.to_set());
    a.unique_seq_to_set();
    b.unique_seq_to_set();
}

/// Each row of a family's GO function has an entry for every symbol of the grammar.
pub proof fn lemma_go_row_has(f: &LR0ItemSetFamily, g: SpecGrammar, s: int, x: SpecLetter)
    requires
        f.of_grammar(g),
        0 <= s < f.sets().len(),
        signs_of(g).contains(x),
    ensures
        exists|i: int| 0 <= i < f.go_function@[s]@.len() && (#[trigger] f.go_function@[s]@[i]).0@ == x,
{
    let row = f.go_function@[s]@;
    assert(go_keys(row).to_set().contains(x));
    let i = choose|i: int| 0 <= i < go_keys(row).len() && go_keys(row)[i] == x;
    assert(row[i].0@ == x);
}

/// The items a family can hold belong to productions of the grammar's non terminals.
pub proof fn lemma_universe_left(g: SpecGrammar, a: SpecItem0)
    requires
        g.wf(),
        family_universe0(g).contains(a),
    ensures
        g.non_terminals.contains(a.left),
{
    if all_items0(g.rules).contains(a) {
        lemma_all_items_left(g.rules, a);
        let k = choose|k: int| 0 <= k < g.rules.len() && g.rules[k].left == a.left;
        assert(crate::grammar::wf_rule(g, g.rules[k]));
    } else {
        let k = choose|k: int| 0 <= k < g.rules.len() && (#[trigger] g.rules[k]).left == g.origin && a == spec_item_at(g.rules[k], 0);
    }
}

proof fn lemma_all_items_left(rules: Seq<SpecRule>, a: SpecItem0)
    requires
        all_items0(rules).contains(a),
    ensures
        exists|k: int| 0 <= k < rules.len() && rules[k].left == a.left,
    decreases rules.len(),
{
    if all_items0(rules.drop_last()).contains(a) {
        lemma_all_items_left(rules.drop_last(), a);
        let k = choose|k: int| 0 <= k < rules.drop_last().len() && rules.drop_last()[k].left == a.left;
        assert(rules[k] == rules.drop_last()[k]);
    } else {
        let r = rules.last();
        if r.right != seq![SpecLetter::Empty] {
            let p = choose|p: int| 0 <= p <= r.right.len() && a == #[trigger] spec_item_at(r, p);
        }
        assert(rules[rules.len() - 1] == r);
    }
}

/// The items of a set of a family that wait for `x` make GO over `x` non empty.
pub proof fn lemma_go_nonempty(s: Set<SpecItem0>, w: Set<SpecItem0>, a: SpecItem0)
    requires
        s.contains(a),
        a.y.len() > 0,
    ensures
        spec_go0(s, w, a.y[0]).contains(spec_shift0(a)),
{
    assert(kernel0(s, a.y[0]).contains(spec_shift0(a)));
    crate::utils::lemma_least_closed_init(kernel0(s, a.y[0]), closure_edge0(w), spec_shift0(a));
}

proof fn lemma_all_items_rule(rules: Seq<SpecRule>, a: SpecItem0)
    requires
        all_items0(rules).contains(a),
    ensures
        exists|k: int| 0 <= k < rules.len() && #[trigger] rule_items0(rules[k]).contains(a),
    decreases rules.len(),
{
    if all_items0(rules.drop_last()).contains(a) {
        lemma_all_items_rule(rules.drop_last(), a);
        let k = choose|k: int| 0 <= k < rules.drop_last().len() && #[trigger] rule_items0(rules.drop_last()[k]).contains(a);
        assert(rules[k] == rules.drop_last()[k]);
    } else {
        assert(rules[rules.len() - 1] == rules.last());
    }
}

/// The symbol after the dot of an item of a family is a symbol of the grammar,
/// unless it is the empty word of the start item of an empty production.
pub proof fn lemma_universe_symbol(g: SpecGrammar, a: SpecItem0)
    requires
        g.wf(),
        family_universe0(g).contains(a),
        a.y.len() > 0,
        !(a.y[0] is Empty),
    ensures
        signs_of(g).contains(a.y[0]),
        a.y[0] is Terminal || a.y[0] is NonTerminal,
{
    let r = if all_items0(g.rules).contains(a) {
        lemma_all_items_rule(g.rules, a);
        let k = choose|k: int| 0 <= k < g.rules.len() && #[trigger] rule_items0(g.rules[k]).contains(a);
        let r = g.rules[k];
        assert(crate::grammar::wf_rule(g, r));
        if r.right == seq![SpecLetter::Empty] {
            assert(a.y.len() == 0);
        }
        let p = choose|p: int| 0 <= p <= r.right.len() && a == #[trigger] spec_item_at(r, p);
        assert(a.y[0] == r.right[p]);
        r
    } else {
        let k = choose|k: int| 0 <= k < g.rules.len() && (#[trigger] g.rules[k]).left == g.origin && a == spec_item_at(g.rules[k], 0);
        let r = g.rules[k];
        assert(crate::grammar::wf_rule(g, r));
        assert(a.y[0] == r.right[0]);
        if r.right == seq![SpecLetter::Empty] {
            assert(r.right[0] == SpecLetter::Empty);
        }
        r
    };
    assert(crate::grammar::wf_rule(g, r));
    assert(r.right != seq![SpecLetter::Empty] ==> exists|i: int| 0 <= i < r.right.len() && r.right[i] == a.y[0]) by {
        if all_items0(g.rules).contains(a) {
            let p = choose|p: int| 0 <= p <= r.right.len() && a == #[trigger] spec_item_at(r, p);
            assert(r.right[p] == a.y[0]);
        } else {
            assert(r.right[0] == a.y[0]);
        }
    }
    let i = choose|i: int| 0 <= i < r.right.len() && r.right[i] == a.y[0];
    assert(crate::grammar::declared_symbol(g, r.right[i]));
}

} // verus!

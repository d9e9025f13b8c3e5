use vstd::prelude::*;
use super::lr1_item::{LR1Item, SpecItem1, spec_shift1};
use super::lr1_item_set::{LR1ItemSet, spec_closure1, spec_go1, initial_items1, item1_ok, context1_ok, items1_view};
use super::universe::{good1, lemma_closure_in_good, lemma_go_in_good, lemma_initial_in_good, lemma_context1, universe1};
use crate::grammar::letter::{Letter, SpecLetter, seq_view};
use crate::grammar::rule::{SpecRule, rules_view};
use crate::grammar::{Grammar, SpecGrammar};
use crate::first_follow_set::{FirstFollowSet, node_count, edge_budget};
use crate::lr0::lr0_item_set_family::{signs_of, sorted_signs};
use crate::utils::{subsets_of, lemma_subsets_finite, lemma_distinct_within_len, lemma_push_no_dup};
use crate::utils::assoc::{assoc_map, last_key_index, lemma_assoc_get, lemma_assoc_absent};
use crate::utils::random::{rng_from_seed, rng_below, shuffle_indices, index_range, lemma_perm_of_range};

verus! {

/// The productions and FIRST table that LR(1) GO works with.
pub struct Ctx1 {
    pub rules: Seq<SpecRule>,
    pub m: Seq<(Letter, Vec<Letter>)>,
}

/// GO for LR(1) items in a context.
pub open spec fn go1(s: Set<SpecItem1>, w: Ctx1, x: SpecLetter) -> Set<SpecItem1> {
    spec_go1(s, w.rules, w.m, x)
}

/// The item sets of a family, each as a mathematical set.
pub open spec fn sets1_view(v: Seq<LR1ItemSet>) -> Seq<Set<SpecItem1>> {
    v.map_values(|s: LR1ItemSet| s@.to_set())
}

/// An entry of the GO function: no successor, or the number of the successor set.
#[derive(Debug, Clone, Copy)]
pub enum GoFunctionItem {
    Error,
    Step(usize),
}

impl GoFunctionItem {
    pub fn is_err(&self) -> (res: bool)
        ensures
            res == (*self is Error),
    {
        match self {
            GoFunctionItem::Error => true,
            _ => false,
        }
    }

    /// The successor's number.
    pub fn value(&self) -> (res: usize)
        requires
            *self is Step,
        ensures
            res == self->Step_0,
    {
        match self {
            GoFunctionItem::Step(x) => *x,
            GoFunctionItem::Error => 0,
        }
    }
}


/// What an entry for `x` in the row of set `s` must be.
pub open spec fn go_entry_ok1(sets: Seq<Set<SpecItem1>>, w: Ctx1, s: int, x: SpecLetter, item: GoFunctionItem) -> bool {
    let next = go1(sets[s], w, x);
    match item {
        GoFunctionItem::Error => next == Set::<SpecItem1>::empty(),
        GoFunctionItem::Step(t) => next != Set::<SpecItem1>::empty() && t < sets.len() && sets[t as int] == next,
    }
}

/// The keys of a row of the GO function.
pub open spec fn go_keys1(row: Seq<(Letter, GoFunctionItem)>) -> Seq<SpecLetter> {
    row.map_values(|e: (Letter, GoFunctionItem)| e.0@)
}

/// The canonical LR(1) item set family of a grammar with its GO function.
#[derive(Debug)]
pub struct LR1ItemSetFamily {
    pub item_sets: Vec<LR1ItemSet>,
    pub go_function: Vec<Vec<(Letter, GoFunctionItem)>>,
}

impl LR1ItemSetFamily {
    pub open spec fn sets(&self) -> Seq<Set<SpecItem1>> {
        sets1_view(self.item_sets@)
    }

    /// This is the LR(1) family of `g` under the FIRST table `m`: set 0 is the closure of
    /// the start items, the sets are distinct, each later set is GO of an earlier one,
    /// the family is closed under GO, and the GO function records each transition.
    pub open spec fn of_grammar(&self, g: SpecGrammar, m: Seq<(Letter, Vec<Letter>)>) -> bool {
        let w = Ctx1 { rules: g.rules, m };
        let sets = self.sets();
        &&& sets.len() >= 1
        &&& sets[0] == spec_closure1(initial_items1(g), g.rules, m)
        &&& sets.no_duplicates()
        &&& forall|s: int| 0 <= s < sets.len() ==> (#[trigger] self.item_sets@[s])@.no_duplicates()
        &&& forall|s: int| 0 <= s < sets.len() ==> (#[trigger] sets[s]).subset_of(good1(g.rules, m))
        &&& forall|s: int| 1 <= s < sets.len() ==> #[trigger] reached1(sets, w, signs_of(g), s)
        &&& forall|s: int| 1 <= s < sets.len() ==> #[trigger] sets[s] != Set::<SpecItem1>::empty()
        &&& self.go_function@.len() == sets.len()
        &&& forall|s: int| 0 <= s < sets.len() ==> go_keys1(#[trigger] self.go_function@[s]@).no_duplicates()
        &&& forall|s: int| 0 <= s < sets.len() ==> go_keys1(#[trigger] self.go_function@[s]@).to_set() == signs_of(g)
        &&& forall|s: int, i: int|
            0 <= s < sets.len() && 0 <= i < self.go_function@[s]@.len() ==> go_entry_ok1(
                sets,
                w,
                s,
                (#[trigger] self.go_function@[s]@[i]).0@,
                self.go_function@[s]@[i].1,
            )
    }
}

/// Set `s` is GO of an earlier set over one of `signs`.
pub open spec fn reached1(sets: Seq<Set<SpecItem1>>, w: Ctx1, signs: Set<SpecLetter>, s: int) -> bool {
    exists|t: int, x: SpecLetter| 0 <= t < s && signs.contains(x) && sets[s] == #[trigger] go1(sets[t], w, x)
}

/// Every GO result of set `t` over the symbols in `signs` is empty or one of `sets`.
pub open spec fn processed1(sets: Seq<Set<SpecItem1>>, w: Ctx1, signs: Set<SpecLetter>, t: int) -> bool {
    forall|x: SpecLetter|
        signs.contains(x) ==> #[trigger] go1(sets[t], w, x) == Set::<SpecItem1>::empty() || sets.contains(
            go1(sets[t], w, x),
        )
}

/// Distinct subsets of a finite set are no more than its subsets.
proof fn lemma_sets_bound1(sets: Seq<Set<SpecItem1>>, u: Set<SpecItem1>)
    requires
        sets.no_duplicates(),
        u.finite(),
        forall|s: int| 0 <= s < sets.len() ==> (#[trigger] sets[s]).subset_of(u),
    ensures
        sets.len() <= subsets_of(u).len(),
{
    lemma_subsets_finite(u);
    assert forall|s: int| 0 <= s < sets.len() implies subsets_of(u).contains(#[trigger] sets[s]) by {}
    lemma_distinct_within_len(sets, subsets_of(u));
}

proof fn lemma_sets1_push(v: Seq<LR1ItemSet>, s: LR1ItemSet)
    ensures
        sets1_view(v.push(s)) == sets1_view(v).push(s@.to_set()),
{
    assert(sets1_view(v.push(s)) =~= sets1_view(v).push(s@.to_set()));
}

/// The number of the set in `sets` holding the same items as `s`.
fn find_set1(sets: &Vec<LR1ItemSet>, s: &LR1ItemSet) -> (res: Option<usize>)
    ensures
        match res {
            Some(i) => i < sets@.len() && sets1_view(sets@)[i as int] == s@.to_set(),
            None => !sets1_view(sets@).contains(s@.to_set()),
        },
{
    for i in 0..sets.len()
        invariant
            forall|j: int| 0 <= j < i ==> sets1_view(sets@)[j] != s@.to_set(),
    {
        if sets[i].same_items(s) {
            return Some(i);
        }
    }
    None
}

/// GO of set `t` over `x` is empty or one of `sets`.
pub open spec fn go_known1(sets: Seq<Set<SpecItem1>>, w: Ctx1, t: int, x: SpecLetter) -> bool {
    go1(sets[t], w, x) == Set::<SpecItem1>::empty() || sets.contains(go1(sets[t], w, x))
}

proof fn lemma_processed_push1(sets: Seq<Set<SpecItem1>>, n: Set<SpecItem1>, w: Ctx1, signs: Set<SpecLetter>, t: int)
    requires
        0 <= t < sets.len(),
        processed1(sets, w, signs, t),
    ensures
        processed1(sets.push(n), w, signs, t),
{
    assert(sets.push(n)[t] == sets[t]);
    assert forall|x: SpecLetter| signs.contains(x) implies #[trigger] go1(sets.push(n)[t], w, x) == Set::<SpecItem1>::empty()
        || sets.push(n).contains(go1(sets.push(n)[t], w, x)) by {
        if go1(sets[t], w, x) != Set::<SpecItem1>::empty() {
            let k = choose|k: int| 0 <= k < sets.len() && sets[k] == go1(sets[t], w, x);
            assert(sets.push(n)[k] == sets[k]);
        }
    }
}

proof fn lemma_reached_push1(sets: Seq<Set<SpecItem1>>, n: Set<SpecItem1>, w: Ctx1, signs: Set<SpecLetter>, s: int)
    requires
        0 <= s < sets.len(),
        reached1(sets, w, signs, s),
    ensures
        reached1(sets.push(n), w, signs, s),
{
    let (t, x) = choose|t: int, x: SpecLetter| 0 <= t < s && signs.contains(x) && sets[s] == #[trigger] go1(sets[t], w, x);
    assert(sets.push(n)[t] == sets[t]);
    assert(sets.push(n)[s] == sets[s]);
    assert(sets.push(n)[s] == go1(sets.push(n)[t], w, x));
}

/// A row of the GO function as a map.
pub open spec fn go_row_map1(row: Seq<(Letter, GoFunctionItem)>) -> Map<SpecLetter, GoFunctionItem> {
    assoc_map(row.map_values(|e: (Letter, GoFunctionItem)| (e.0@, e.1)))
}

/// The entry of `k` in a row of the GO function, if there is one.
pub fn go_get1(row: &Vec<(Letter, GoFunctionItem)>, k: &Letter) -> (res: Option<GoFunctionItem>)
    ensures
        match res {
            Some(v) => go_row_map1(row@).dom().contains(k@) && go_row_map1(row@)[k@] == v && exists|i: int|
                0 <= i < row@.len() && row@[i].0@ == k@ && row@[i].1 == v,
            None => !go_row_map1(row@).dom().contains(k@) && forall|i: int| 0 <= i < row@.len() ==> (#[trigger] row@[i]).0@ != k@,
        },
{
    let ghost vw = row@.map_values(|e: (Letter, GoFunctionItem)| (e.0@, e.1));
    match last_key_index(row, k) {
        Some(i) => {
            proof {
                assert forall|j: int| i < j < vw.len() implies (#[trigger] vw[j]).0 != vw[i as int].0 by {
                    assert(vw[j].0 == row@[j].0@);
                }
                lemma_assoc_get(vw, i as int);
            }
            Some(row[i].1)
        },
        None => {
            proof {
                assert forall|j: int| 0 <= j < vw.len() implies (#[trigger] vw[j]).0 != k@ by {
                    assert(vw[j].0 == row@[j].0@);
                }
                lemma_assoc_absent(vw, k@);
            }
            None
        },
    }
}

/// Each row of a family's GO function has an entry for every symbol of the grammar.
pub proof fn lemma_go_row_has1(f: &LR1ItemSetFamily, g: SpecGrammar, m: Seq<(Letter, Vec<Letter>)>, s: int, x: SpecLetter)
    requires
        f.of_grammar(g, m),
        0 <= s < f.sets().len(),
        signs_of(g).contains(x),
    ensures
        exists|i: int| 0 <= i < f.go_function@[s]@.len() && (#[trigger] f.go_function@[s]@[i]).0@ == x,
{
    let row = f.go_function@[s]@;
    assert(go_keys1(row).to_set().contains(x));
    let i = choose|i: int| 0 <= i < go_keys1(row).len() && go_keys1(row)[i] == x;
    assert(row[i].0@ == x);
}


/// The items of a set of good items can be worked with.
pub proof fn lemma_items_ok_of_good(v: Seq<SpecItem1>, rules: Seq<SpecRule>, m: Seq<(Letter, Vec<Letter>)>)
    requires
        v.to_set().subset_of(good1(rules, m)),
    ensures
        forall|i: int| 0 <= i < v.len() ==> item1_ok(rules, m, #[trigger] v[i]),
{
    assert forall|i: int| 0 <= i < v.len() implies item1_ok(rules, m, #[trigger] v[i]) by {
        assert(v.to_set().contains(v[i]));
    }
}

impl LR1ItemSetFamily {
    /// Builds the family by a search from the closure of the start items, taking the
    /// next set to expand and the order of the symbols at random from `seed`; the
    /// numbering of the sets depends on the seed, the family does not.
    #[verifier::rlimit(60)]
    pub fn from_grammar_with_seed(g: &Grammar, seed: u64) -> (res: LR1ItemSetFamily)
        requires
            g@.wf(),
            node_count(g@) + edge_budget(g@.rules) + 1 < i32::MAX,
        ensures
            exists|ff: FirstFollowSet| ff.of_grammar(g@) && res.of_grammar(g@, ff.first_set@),
    {
        let ff = FirstFollowSet::from_grammar(g);
        let ghost rules = g@.rules;
        let ghost m = ff.first_set@;
        proof {
            lemma_context1(g@, &ff);
            assert(rules_view(g.rules@) == rules);
        }
        let init_items = LR1ItemSet::from_grammar_initial(g);
        proof {
            lemma_initial_in_good(g@, &ff);
            lemma_items_ok_of_good(init_items@, rules, m);
        }
        let initial_set = init_items.closure(&g.rules, &ff);
        let signs = sorted_signs(g);
        let n = signs.len();
        let ghost w = Ctx1 { rules, m };
        let ghost u = good1(rules, m);
        let ghost signs_set = signs_of(g@);
        let mut rng = rng_from_seed(seed);
        let mut perm = index_range(n);
        let ghost range = perm@;
        proof {
            broadcast use vstd::seq_lib::seq_to_set_is_finite;
            vstd::set_lib::lemma_len_subset(u, universe1(rules, m));
            lemma_closure_in_good(init_items@.to_set(), rules, &ff);
        }
        let mut item_sets: Vec<LR1ItemSet> = Vec::new();
        item_sets.push(initial_set);
        let mut q: Vec<usize> = Vec::new();
        q.push(0);
        proof {
            assert(sets1_view(item_sets@) =~= seq![spec_closure1(initial_items1(g@), rules, m)]);
            assert(q@[0] == 0);
            assert(q@.contains(0usize));
        }
        while q.len() > 0
            invariant
                g@.wf(),
                context1_ok(rules, &ff),
                rules == g@.rules,
                rules == rules_view(g.rules@),
                m == ff.first_set@,
                ff.of_grammar(g@),
                w == (Ctx1 { rules, m }),
                u == good1(rules, m),
                u.finite(),
                signs_set == signs_of(g@),
                seq_view(signs@).to_set() == signs_set,
                signs@.len() == n,
                forall|i: int| 0 <= i < n ==> (#[trigger] signs@[i])@ is Terminal || signs@[i]@ is NonTerminal,
                perm@.to_multiset() == range.to_multiset(),
                range.len() == n,
                forall|i: int| 0 <= i < n ==> range[i] == i,
                sets1_view(item_sets@).len() >= 1,
                sets1_view(item_sets@)[0] == spec_closure1(initial_items1(g@), rules, m),
                sets1_view(item_sets@).no_duplicates(),
                forall|s: int| 0 <= s < item_sets@.len() ==> (#[trigger] item_sets@[s])@.no_duplicates(),
                forall|s: int| 0 <= s < item_sets@.len() ==> (#[trigger] sets1_view(item_sets@)[s]).subset_of(u),
                forall|s: int| 1 <= s < item_sets@.len() ==> #[trigger] reached1(sets1_view(item_sets@), w, signs_set, s),
                forall|s: int| 1 <= s < item_sets@.len() ==> #[trigger] sets1_view(item_sets@)[s] != Set::<SpecItem1>::empty(),
                forall|j: int| 0 <= j < q@.len() ==> (#[trigger] q@[j]) < item_sets@.len(),
                forall|t: int|
                    0 <= t < item_sets@.len() && !q@.contains(t as usize) ==> #[trigger] processed1(
                        sets1_view(item_sets@),
                        w,
                        signs_set,
                        t,
                    ),
            decreases subsets_of(u).len() - item_sets@.len(), q@.len(),
        {
            proof {
                lemma_sets_bound1(sets1_view(item_sets@), u);
            }
            let ghost q_old = q@;
            let ran = rng_below(&mut rng, q.len());
            let p = q.remove(ran);
            shuffle_indices(&mut perm, &mut rng);
            proof {
                lemma_perm_of_range(perm@, range, n as int);
            }
            let ghost len0 = item_sets@.len() as int;
            let ghost q0 = q@;
            let ghost mut added: int = 0;
            for j in 0..n
                invariant
                    g@.wf(),
                    context1_ok(rules, &ff),
                    rules == g@.rules,
                    rules == rules_view(g.rules@),
                    m == ff.first_set@,
                    ff.of_grammar(g@),
                    w == (Ctx1 { rules, m }),
                    u == good1(rules, m),
                    u.finite(),
                    signs_set == signs_of(g@),
                    seq_view(signs@).to_set() == signs_set,
                    signs@.len() == n,
                    forall|i: int| 0 <= i < n ==> (#[trigger] signs@[i])@ is Terminal || signs@[i]@ is NonTerminal,
                    perm@.to_multiset() == range.to_multiset(),
                    range.len() == n,
                    forall|i: int| 0 <= i < n ==> range[i] == i,
                    perm@.len() == n,
                    forall|i: int| 0 <= i < perm@.len() ==> perm@[i] < n,
                    0 <= p < len0,
                    0 <= added,
                    item_sets@.len() == len0 + added,
                    q@.len() == q0.len() + added,
                    q0 == q_old.remove(ran as int),
                    0 <= ran < q_old.len(),
                    q_old[ran as int] == p,
                    forall|k: int| 0 <= k < q0.len() ==> q@[k] == q0[k],
                    forall|k: int| q0.len() <= k < q@.len() ==> #[trigger] q@[k] == len0 + (k - q0.len()),
                    sets1_view(item_sets@).len() >= 1,
                    sets1_view(item_sets@)[0] == spec_closure1(initial_items1(g@), rules, m),
                    sets1_view(item_sets@).no_duplicates(),
                    forall|s: int| 0 <= s < item_sets@.len() ==> (#[trigger] item_sets@[s])@.no_duplicates(),
                    forall|s: int| 0 <= s < item_sets@.len() ==> (#[trigger] sets1_view(item_sets@)[s]).subset_of(u),
                    forall|s: int| 1 <= s < item_sets@.len() ==> #[trigger] reached1(sets1_view(item_sets@), w, signs_set, s),
                    forall|s: int| 1 <= s < item_sets@.len() ==> #[trigger] sets1_view(item_sets@)[s] != Set::<SpecItem1>::empty(),
                    forall|k: int| 0 <= k < q@.len() ==> (#[trigger] q@[k]) < item_sets@.len(),
                    forall|t: int|
                        0 <= t < len0 && t != p && !q_old.contains(t as usize) ==> #[trigger] processed1(
                            sets1_view(item_sets@),
                            w,
                            signs_set,
                            t,
                        ),
                    forall|jj: int| 0 <= jj < j ==> go_known1(sets1_view(item_sets@), w, p as int, signs@[#[trigger] perm@[jj] as int]@),
            {
                let k = perm[j];
                let letter = &signs[k];
                let ghost x = letter@;
                assert(item_sets@[p as int]@.to_set() == sets1_view(item_sets@)[p as int]);
                proof {
                    lemma_items_ok_of_good(item_sets@[p as int]@, rules, m);
                }
                let temp = item_sets[p].go(&g.rules, letter, &ff);
                assert(go1(sets1_view(item_sets@)[p as int], w, letter@) == temp@.to_set());
                let ghost sets_before = sets1_view(item_sets@);
                if !temp.is_empty() {
                    match find_set1(&item_sets, &temp) {
                        Some(idx) => {
                            assert(sets_before[idx as int] == temp@.to_set());
                        },
                        None => {
                            let ghost news = temp@.to_set();
                            let ghost before_items = item_sets@;
                            q.push(item_sets.len());
                            item_sets.push(temp);
                            proof {
                                lemma_sets1_push(before_items, item_sets@.last());
                                assert(sets1_view(item_sets@) == sets_before.push(news));
                                lemma_push_no_dup(sets_before, news);
                                assert(news.contains(item_sets@.last()@[0]));
                                lemma_go_in_good(sets_before[p as int], rules, &ff, x);
                                assert forall|s: int| 1 <= s < item_sets@.len() implies #[trigger] reached1(sets1_view(item_sets@), w, signs_set, s) by {
                                    if s < len0 + added {
                                        lemma_reached_push1(sets_before, news, w, signs_set, s);
                                    } else {
                                        assert(sets1_view(item_sets@)[p as int] == sets_before[p as int]);
                                        assert(signs_set.contains(x)) by {
                                            assert(seq_view(signs@)[k as int] == x);
                                        }
                                        assert(sets1_view(item_sets@)[s] == go1(sets1_view(item_sets@)[p as int], w, x));
                                    }
                                }
                                assert forall|t: int|
                                    0 <= t < len0 && t != p && !q_old.contains(t as usize) implies #[trigger] processed1(
                                        sets1_view(item_sets@),
                                        w,
                                        signs_set,
                                        t,
                                    ) by {
                                    lemma_processed_push1(sets_before, news, w, signs_set, t);
                                }
                                assert forall|s: int| 0 <= s < item_sets@.len() implies (#[trigger] sets1_view(item_sets@)[s]).subset_of(u) by {
                                    if s < len0 + added {
                                        assert(sets1_view(item_sets@)[s] == sets_before[s]);
                                    }
                                }
                                assert forall|s: int| 1 <= s < item_sets@.len() implies #[trigger] sets1_view(item_sets@)[s] != Set::<SpecItem1>::empty() by {
                                    if s < len0 + added {
                                        assert(sets1_view(item_sets@)[s] == sets_before[s]);
                                    }
                                }
                                assert forall|jj: int| 0 <= jj < j implies go_known1(sets1_view(item_sets@), w, p as int, signs@[#[trigger] perm@[jj] as int]@) by {
                                    let y = signs@[perm@[jj] as int]@;
                                    assert(sets1_view(item_sets@)[p as int] == sets_before[p as int]);
                                    if go1(sets_before[p as int], w, y) != Set::<SpecItem1>::empty() {
                                        let m = choose|m: int| 0 <= m < sets_before.len() && sets_before[m] == go1(sets_before[p as int], w, y);
                                        assert(sets1_view(item_sets@)[m] == sets_before[m]);
                                    }
                                }
                                assert(sets1_view(item_sets@)[len0 + added] == news);
                                added = added + 1;
                            }
                        },
                    }
                }
                proof {
                    let sets = sets1_view(item_sets@);
                    assert(sets[p as int] == sets_before[p as int]);
                    if temp@.len() == 0 {
                        assert(temp@.to_set() =~= Set::<SpecItem1>::empty());
                    } else {
                        assert(sets.contains(temp@.to_set()));
                    }
                    assert(go_known1(sets, w, p as int, x));
                    assert(signs@[perm@[j as int] as int]@ == x);
                }
            }
            let total = item_sets.len();
            proof {
                let sets = sets1_view(item_sets@);
                assert(processed1(sets, w, signs_set, p as int)) by {
                    assert forall|x: SpecLetter| signs_set.contains(x) implies #[trigger] go1(sets[p as int], w, x) == Set::<SpecItem1>::empty()
                        || sets.contains(go1(sets[p as int], w, x)) by {
                        let i = choose|i: int| 0 <= i < seq_view(signs@).len() && seq_view(signs@)[i] == x;
                        assert(perm@.contains(i as usize));
                        let jj = choose|jj: int| 0 <= jj < perm@.len() && perm@[jj] == i as usize;
                        assert(signs@[perm@[jj] as int]@ == x);
                    }
                }
                assert forall|t: int|
                    0 <= t < item_sets@.len() && !q@.contains(t as usize) implies #[trigger] processed1(sets, w, signs_set, t) by {
                    if t >= len0 {
                        assert(q@[q0.len() + (t - len0)] == t);
                        assert(false);
                    } else if t != p {
                        if q_old.contains(t as usize) {
                            let i = choose|i: int| 0 <= i < q_old.len() && q_old[i] == t as usize;
                            assert(t < total);
                            assert((t as usize) as int == t);
                            if i < ran {
                                assert(q0[i] == t);
                                assert(q@[i] == t);
                            } else {
                                assert(i != ran);
                                assert(q0[i - 1] == t);
                                assert(q@[i - 1] == t);
                            }
                        }
                    }
                }
                lemma_sets_bound1(sets, u);
            }
        }
        let mut go_function: Vec<Vec<(Letter, GoFunctionItem)>> = Vec::new();
        for s in 0..item_sets.len()
            invariant
                g@.wf(),
                context1_ok(rules, &ff),
                rules == g@.rules,
                rules == rules_view(g.rules@),
                m == ff.first_set@,
                ff.of_grammar(g@),
                w == (Ctx1 { rules, m }),
                u == good1(rules, m),
                forall|t: int| 0 <= t < item_sets@.len() ==> (#[trigger] sets1_view(item_sets@)[t]).subset_of(u),
                signs_set == signs_of(g@),
                seq_view(signs@).to_set() == signs_set,
                seq_view(signs@).no_duplicates(),
                signs@.len() == n,
                forall|i: int| 0 <= i < n ==> (#[trigger] signs@[i])@ is Terminal || signs@[i]@ is NonTerminal,
                go_function@.len() == s,
                forall|t: int| 0 <= t < item_sets@.len() ==> #[trigger] processed1(sets1_view(item_sets@), w, signs_set, t),
                forall|t: int| 0 <= t < s ==> go_keys1(#[trigger] go_function@[t]@) == seq_view(signs@),
                forall|t: int, i: int|
                    0 <= t < s && 0 <= i < go_function@[t]@.len() ==> go_entry_ok1(
                        sets1_view(item_sets@),
                        w,
                        t,
                        (#[trigger] go_function@[t]@[i]).0@,
                        go_function@[t]@[i].1,
                    ),
        {
            let mut row: Vec<(Letter, GoFunctionItem)> = Vec::new();
            assert(sets1_view(item_sets@)[s as int].subset_of(u));
            for k in 0..n
                invariant
                    context1_ok(rules, &ff),
                    rules == rules_view(g.rules@),
                    m == ff.first_set@,
                    w == (Ctx1 { rules, m }),
                    u == good1(rules, m),
                    sets1_view(item_sets@)[s as int].subset_of(u),
                    signs@.len() == n,
                    forall|i: int| 0 <= i < n ==> (#[trigger] signs@[i])@ is Terminal || signs@[i]@ is NonTerminal,
                    seq_view(signs@).to_set() == signs_set,
                    0 <= s < item_sets@.len(),
                    processed1(sets1_view(item_sets@), w, signs_set, s as int),
                    go_keys1(row@) == seq_view(signs@).take(k as int),
                    forall|i: int|
                        0 <= i < row@.len() ==> go_entry_ok1(sets1_view(item_sets@), w, s as int, (#[trigger] row@[i]).0@, row@[i].1),
            {
                let letter = &signs[k];
                assert(item_sets@[s as int]@.to_set() == sets1_view(item_sets@)[s as int]);
                proof {
                    lemma_items_ok_of_good(item_sets@[s as int]@, rules, m);
                }
                let temp = item_sets[s].go(&g.rules, letter, &ff);
                assert(go1(sets1_view(item_sets@)[s as int], w, letter@) == temp@.to_set());
                let entry = if temp.is_empty() {
                    assert(temp@.to_set() =~= Set::<SpecItem1>::empty());
                    GoFunctionItem::Error
                } else {
                    assert(temp@.to_set().contains(temp@[0]));
                    match find_set1(&item_sets, &temp) {
                        Some(t) => GoFunctionItem::Step(t),
                        None => {
                            assert(signs_set.contains(letter@)) by {
                                assert(seq_view(signs@)[k as int] == letter@);
                            }
                            assert(false);
                            GoFunctionItem::Error
                        },
                    }
                };
                let ghost before = row@;
                row.push((letter.clone(), entry));
                proof {
                    assert(go_keys1(row@) =~= go_keys1(before).push(letter@));
                    assert(seq_view(signs@).take(k + 1) =~= seq_view(signs@).take(k as int).push(letter@));
                }
            }
            assert(seq_view(signs@).take(n as int) =~= seq_view(signs@));
            go_function.push(row);
        }
        let res = LR1ItemSetFamily { item_sets, go_function };
        assert(res.sets() == sets1_view(res.item_sets@));
        assert(res.of_grammar(g@, ff.first_set@));
        res
    }

    /// The family built with seed 0.
    pub fn from_grammar(g: &Grammar) -> (res: LR1ItemSetFamily)
        requires
            g@.wf(),
            node_count(g@) + edge_budget(g@.rules) + 1 < i32::MAX,
        ensures
            exists|ff: FirstFollowSet| ff.of_grammar(g@) && res.of_grammar(g@, ff.first_set@),
    {
        LR1ItemSetFamily::from_grammar_with_seed(g, 0)
    }
}

} // verus!

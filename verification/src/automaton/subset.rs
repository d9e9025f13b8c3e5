use vstd::prelude::*;
use crate::grammar::letter::{Letter, SpecLetter, seq_view, clone_letters};
use crate::utils::{subsets_of, lemma_subsets_finite, lemma_distinct_within_len, lemma_least_closed_init};
use super::nfa::{NFA, ascending, lemma_counts_no_dup, lemma_closure_in_range};
use super::dfa::{DFA, edges_view};

verus! {

/// Two ascending sequences without repetitions that hold the same elements are equal.
pub proof fn lemma_ascending_set_eq(a: Seq<usize>, b: Seq<usize>)
    requires
        ascending(a),
        ascending(b),
        a.no_duplicates(),
        b.no_duplicates(),
        a.to_set() == b.to_set(),
    ensures
        a == b,
    decreases a.len(),
{
    if a.len() == 0 {
        if b.len() > 0 {
            assert(b.to_set().contains(b[0]));
            assert(a.to_set().contains(b[0]));
        }
        assert(a =~= b);
    } else {
        if b.len() == 0 {
            assert(a.to_set().contains(a[0]));
            assert(b.to_set().contains(a[0]));
        }
        assert(a.to_set().contains(a[0]));
        assert(b.to_set().contains(a[0]));
        assert(a.to_set().contains(b[0]));
        let i = choose|i: int| 0 <= i < a.len() && a[i] == b[0];
        let j = choose|j: int| 0 <= j < b.len() && b[j] == a[0];
        assert(a[0] <= a[i]) by {
            if i > 0 {
                assert(0 <= 0 < i < a.len());
            }
        }
        assert(b[0] <= b[j]) by {
            if j > 0 {
                assert(0 <= 0 < j < b.len());
            }
        }
        assert(a[0] == b[0]);
        let a2 = a.drop_first();
        let b2 = b.drop_first();
        assert forall|x: usize| a2.to_set().contains(x) <==> b2.to_set().contains(x) by {
            if a2.to_set().contains(x) {
                let k = choose|k: int| 0 <= k < a2.len() && a2[k] == x;
                assert(a[k + 1] == x);
                assert(x != a[0]);
                assert(a.to_set().contains(x));
                assert(b.to_set().contains(x));
                let m = choose|m: int| 0 <= m < b.len() && b[m] == x;
                assert(m != 0);
                assert(b2[m - 1] == x);
            }
            if b2.to_set().contains(x) {
                let k = choose|k: int| 0 <= k < b2.len() && b2[k] == x;
                assert(b[k + 1] == x);
                assert(x != b[0]);
                assert(b.to_set().contains(x));
                assert(a.to_set().contains(x));
                let m = choose|m: int| 0 <= m < a.len() && a[m] == x;
                assert(m != 0);
                assert(a2[m - 1] == x);
            }
        }
        assert(a2.to_set() =~= b2.to_set());
        assert(ascending(a2)) by {
            assert forall|p: int, q: int| 0 <= p < q < a2.len() implies a2[p] <= a2[q] by {
                assert(a[p + 1] <= a[q + 1]);
            }
        }
        assert(ascending(b2)) by {
            assert forall|p: int, q: int| 0 <= p < q < b2.len() implies b2[p] <= b2[q] by {
                assert(b[p + 1] <= b[q + 1]);
            }
        }
        lemma_ascending_set_eq(a2, b2);
        assert(a =~= b) by {
            assert forall|k: int| 0 <= k < a.len() implies a[k] == b[k] by {
                if k > 0 {
                    assert(a[k] == a2[k - 1]);
                    assert(b[k] == b2[k - 1]);
                }
            }
        }
    }
}

/// Whether two vectors of indices are equal.
fn same_indices(a: &Vec<usize>, b: &Vec<usize>) -> (res: bool)
    ensures
        res == (a@ == b@),
{
    if a.len() != b.len() {
        return false;
    }
    let mut i: usize = 0;
    while i < a.len()
        invariant
            a@.len() == b@.len(),
            i <= a@.len(),
            forall|k: int| 0 <= k < i ==> a@[k] == b@[k],
        decreases a@.len() - i,
    {
        if a[i] != b[i] {
            return false;
        }
        i = i + 1;
    }
    assert(a@ =~= b@);
    true
}

impl NFA {
    /// `s` holds a final state of the automaton.
    pub open spec fn touches_end(&self, s: Set<usize>) -> bool {
        exists|x: usize| s.contains(x) && #[trigger] self.end@.contains(x)
    }

    /// Whether `s` holds a final state of the automaton.
    pub fn holds_end(&self, s: &Vec<usize>) -> (res: bool)
        ensures
            res == self.touches_end(s@.to_set()),
    {
        let mut i: usize = 0;
        while i < s.len()
            invariant
                i <= s@.len(),
                forall|k: int| 0 <= k < i ==> !self.end@.contains(#[trigger] s@[k]),
            decreases s@.len() - i,
        {
            let x = s[i];
            let mut j: usize = 0;
            while j < self.end.len()
                invariant
                    j <= self.end@.len(),
                    i < s@.len(),
                    x == s@[i as int],
                    forall|m: int| 0 <= m < j ==> self.end@[m] != x,
                decreases self.end@.len() - j,
            {
                if self.end[j] == x {
                    proof {
                        assert(s@.contains(x));
                        assert(s@.to_set().contains(x));
                        assert(self.end@.contains(x));
                    }
                    return true;
                }
                j = j + 1;
            }
            i = i + 1;
        }
        proof {
            assert forall|x: usize| s@.to_set().contains(x) implies !#[trigger] self.end@.contains(x) by {
                let k = choose|k: int| 0 <= k < s@.len() && s@[k] == x;
            }
        }
        false
    }
}


/// A state of the subset construction: the states of the automaton that it stands for,
/// whether one of them is final, and the set that each letter leads to, in the order
/// of the letters.
pub struct SubsetRow {
    pub set: Vec<usize>,
    pub is_end: bool,
    pub targets: Vec<Vec<usize>>,
}

/// The sets of states of the rows.
pub open spec fn row_sets(rows: Seq<SubsetRow>) -> Seq<Set<usize>> {
    rows.map_values(|r: SubsetRow| r.set@.to_set())
}

/// The sets of states that the vectors list.
pub open spec fn vec_sets(v: Seq<Vec<usize>>) -> Seq<Set<usize>> {
    v.map_values(|r: Vec<usize>| r@.to_set())
}

/// The position of the set `t` among `sets`.
pub open spec fn state_index(sets: Seq<Set<usize>>, t: Set<usize>) -> int {
    choose|k: int| 0 <= k < sets.len() && sets[k] == t
}

/// No set occurs twice.
pub open spec fn distinct_sets(sets: Seq<Set<usize>>) -> bool {
    forall|i: int, j: int| 0 <= i < sets.len() && 0 <= j < sets.len() && i != j ==> sets[i] != sets[j]
}

/// Indices below `n`, ascending, each once.
pub open spec fn good_state(s: Seq<usize>, n: nat) -> bool {
    &&& ascending(s)
    &&& s.no_duplicates()
    &&& forall|i: int| 0 <= i < s.len() ==> s[i] < n
}

impl NFA {
    /// The transitions of the state that stands for `p`: for each letter in turn whose
    /// step from `p` is not empty, the letter and the position of that step among `sets`.
    pub open spec fn subset_row(&self, sets: Seq<Set<usize>>, p: Set<usize>, ls: Seq<SpecLetter>) -> Seq<(SpecLetter, usize)>
        decreases ls.len(),
    {
        if ls.len() == 0 {
            Seq::empty()
        } else {
            let prev = self.subset_row(sets, p, ls.drop_last());
            let t = self.spec_step(p, ls.last());
            if t == Set::<usize>::empty() {
                prev
            } else {
                prev.push((ls.last(), state_index(sets, t) as usize))
            }
        }
    }

    /// `sets[j]` is the step of one of the first `bound` sets on a letter of `ls`.
    pub open spec fn reached_before(&self, sets: Seq<Set<usize>>, j: int, bound: int, ls: Seq<SpecLetter>) -> bool {
        exists|i: int, t: int| 0 <= i < bound && 0 <= t < ls.len() && sets[j] == #[trigger] self.spec_step(sets[i], ls[t])
    }

    /// Every non-empty step of `p` on a letter of `ls` is one of `sets`.
    pub open spec fn steps_within(&self, sets: Seq<Set<usize>>, p: Set<usize>, ls: Seq<SpecLetter>) -> bool {
        forall|t: int| 0 <= t < ls.len() && self.spec_step(p, ls[t]) != Set::<usize>::empty() ==>
            exists|k: int| 0 <= k < sets.len() && sets[k] == #[trigger] self.spec_step(p, ls[t])
    }

    /// The states of the subset construction: distinct sets, the first the spontaneous
    /// closure of the start state, each later one the step of an earlier one on a letter,
    /// and every non-empty step of each on a letter among them.
    pub open spec fn subset_states(&self, sets: Seq<Set<usize>>) -> bool {
        let ls = seq_view(self.letters@);
        &&& sets.len() >= 1
        &&& sets[0] == self.eps_closure(set![self.start])
        &&& distinct_sets(sets)
        &&& forall|j: int| 1 <= j < sets.len() ==> #[trigger] self.reached_before(sets, j, j, ls)
        &&& forall|j: int| 0 <= j < sets.len() ==> #[trigger] self.steps_within(sets, sets[j], ls)
    }
}

/// The final targets of a row, in order, once per transition.
pub open spec fn row_hits(n: &NFA, sets: Seq<Set<usize>>, row: Seq<(SpecLetter, usize)>) -> Seq<usize>
    decreases row.len(),
{
    if row.len() == 0 {
        Seq::empty()
    } else {
        let prev = row_hits(n, sets, row.drop_last());
        if n.touches_end(sets[row.last().1 as int]) { prev.push(row.last().1) } else { prev }
    }
}

/// The final states as the subset construction lists them: the first state where it is
/// final, then the final targets of each row in turn, once per transition.
pub open spec fn end_listing(n: &NFA, sets: Seq<Set<usize>>, rows: Seq<Seq<(SpecLetter, usize)>>) -> Seq<usize>
    decreases rows.len(),
{
    if rows.len() == 0 {
        if n.touches_end(sets[0]) { seq![0usize] } else { Seq::empty() }
    } else {
        end_listing(n, sets, rows.drop_last()) + row_hits(n, sets, rows.last())
    }
}

/// Growing `sets` at the end keeps the final targets of a row into the old sets.
proof fn lemma_row_hits_stable(n: &NFA, s1: Seq<Set<usize>>, s2: Seq<Set<usize>>, row: Seq<(SpecLetter, usize)>)
    requires
        s1.len() <= s2.len(),
        forall|k: int| 0 <= k < s1.len() ==> s2[k] == s1[k],
        forall|i: int| 0 <= i < row.len() ==> #[trigger] row[i].1 < s1.len(),
    ensures
        row_hits(n, s2, row) == row_hits(n, s1, row),
    decreases row.len(),
{
    if row.len() > 0 {
        lemma_row_hits_stable(n, s1, s2, row.drop_last());
        assert(row[row.len() - 1].1 < s1.len());
    }
}

/// Growing `sets` at the end keeps the listing of rows into the old sets.
proof fn lemma_end_listing_stable(n: &NFA, s1: Seq<Set<usize>>, s2: Seq<Set<usize>>, rows: Seq<Seq<(SpecLetter, usize)>>)
    requires
        1 <= s1.len() <= s2.len(),
        forall|k: int| 0 <= k < s1.len() ==> s2[k] == s1[k],
        forall|j: int, i: int| 0 <= j < rows.len() && 0 <= i < rows[j].len() ==> #[trigger] rows[j][i].1 < s1.len(),
    ensures
        end_listing(n, s2, rows) == end_listing(n, s1, rows),
    decreases rows.len(),
{
    if rows.len() > 0 {
        let last = rows.last();
        assert forall|i: int| 0 <= i < last.len() implies #[trigger] last[i].1 < s1.len() by {
            assert(rows[rows.len() - 1][i].1 < s1.len());
        }
        lemma_row_hits_stable(n, s1, s2, last);
        let init = rows.drop_last();
        assert forall|j: int, i: int| 0 <= j < init.len() && 0 <= i < init[j].len() implies #[trigger] init[j][i].1 < s1.len() by {
            assert(init[j] == rows[j]);
        }
        lemma_end_listing_stable(n, s1, s2, init);
    } else {
        assert(s2[0] == s1[0]);
    }
}

/// Growing `sets` at the end keeps the transitions of a set whose steps are all in it.
proof fn lemma_subset_row_stable(nfa: &NFA, s0: Seq<Set<usize>>, s1: Seq<Set<usize>>, p: Set<usize>, ls: Seq<SpecLetter>)
    requires
        s0.len() <= s1.len(),
        forall|k: int| 0 <= k < s0.len() ==> s1[k] == s0[k],
        distinct_sets(s1),
        nfa.steps_within(s0, p, ls),
    ensures
        nfa.subset_row(s0, p, ls) == nfa.subset_row(s1, p, ls),
    decreases ls.len(),
{
    if ls.len() > 0 {
        let l2 = ls.drop_last();
        assert(nfa.steps_within(s0, p, l2)) by {
            assert forall|t: int| 0 <= t < l2.len() && nfa.spec_step(p, l2[t]) != Set::<usize>::empty() implies
                exists|k: int| 0 <= k < s0.len() && s0[k] == #[trigger] nfa.spec_step(p, l2[t]) by {
                assert(l2[t] == ls[t]);
            }
        }
        lemma_subset_row_stable(nfa, s0, s1, p, l2);
        let t = nfa.spec_step(p, ls.last());
        if t != Set::<usize>::empty() {
            assert(ls.last() == ls[ls.len() - 1]);
            let k = choose|k: int| 0 <= k < s0.len() && s0[k] == nfa.spec_step(p, ls[ls.len() - 1]);
            let a = state_index(s0, t);
            let b = state_index(s1, t);
            assert(s1[k] == t);
            assert(a == b);
        }
    }
}

/// Pushing a vector adds its set.
proof fn lemma_vec_sets_push(v: Seq<Vec<usize>>, x: Vec<usize>)
    ensures
        vec_sets(v.push(x)) == vec_sets(v).push(x@.to_set()),
{
    assert(vec_sets(v.push(x)) =~= vec_sets(v).push(x@.to_set()));
}

/// The position of a vector equal to `to` among `states`, if there is one.
fn find_state(states: &Vec<Vec<usize>>, to: &Vec<usize>) -> (res: Option<usize>)
    ensures
        match res {
            Some(k) => k < states@.len() && states@[k as int]@ == to@,
            None => forall|k: int| 0 <= k < states@.len() ==> states@[k]@ != to@,
        },
{
    let mut i: usize = 0;
    while i < states.len()
        invariant
            i <= states@.len(),
            forall|k: int| 0 <= k < i ==> states@[k]@ != to@,
        decreases states@.len() - i,
    {
        if same_indices(&states[i], to) {
            return Some(i);
        }
        i = i + 1;
    }
    None
}

/// A copy of a vector of indices.
fn copy_indices(v: &Vec<usize>) -> (res: Vec<usize>)
    ensures
        res@ == v@,
{
    let res = v.clone();
    assert(res@ =~= v@);
    res
}


impl NFA {
    /// The states reached from the start state by spontaneous transitions, each once and
    /// in increasing order.
    fn start_closure(&self) -> (res: Vec<usize>)
        requires
            self.wf(),
            self.start < self.edges@.len(),
        ensures
            good_state(res@, self.edges@.len()),
            res@.to_set() == self.eps_closure(set![self.start]),
    {
        let mut seed: Vec<usize> = Vec::new();
        seed.push(self.start);
        let res = self.epsilon_closure(&seed);
        proof {
            assert(seed@.to_set() =~= set![self.start]) by {
                assert(seed@[0] == self.start);
            }
            seed@.to_multiset_ensures();
            res@.to_multiset_ensures();
            assert forall|x: usize| #[trigger] res@.to_multiset().count(x) <= 1 by {
                if seed@.contains(x) {
                    seed@.lemma_multiset_has_no_duplicates();
                }
            }
            lemma_counts_no_dup(res@);
            assert forall|x: usize| res@.to_set().contains(x) <==> self.eps_closure(seed@.to_set()).contains(x) by {
                assert(res@.contains(x) <==> res@.to_multiset().count(x) > 0);
                if seed@.contains(x) {
                    seed@.lemma_multiset_has_no_duplicates();
                    assert(seed@.to_set().contains(x));
                    lemma_least_closed_init(seed@.to_set(), self.eps_edge(), x);
                }
            }
            assert(res@.to_set() =~= self.eps_closure(set![self.start]));
            assert forall|i: int| 0 <= i < res@.len() implies res@[i] < self.edges@.len() by {
                let x = res@[i];
                assert(res@.contains(x));
                assert(res@.to_multiset().count(x) > 0);
                if !seed@.contains(x) {
                    assert(self.eps_closure(seed@.to_set()).contains(x));
                    lemma_closure_in_range(self, seed@.to_set(), x);
                }
            }
        }
        res
    }

    /// The subset construction: a deterministic automaton whose states stand for the sets
    /// of states reachable from the spontaneous closure of the start state, taken in the
    /// order in which they are first met, together with the row of each.
    pub fn to_dfa_with_process(&self) -> (res: (DFA, Vec<SubsetRow>))
        requires
            self.wf(),
            self.start < self.edges@.len(),
        ensures
            res.1@.len() == res.0.edges@.len(),
            self.subset_states(row_sets(res.1@)),
            forall|j: int| 0 <= j < res.1@.len() ==> good_state(#[trigger] res.1@[j].set@, self.edges@.len()),
            res.0.start == 0,
            res.0.letters@ == self.letters@,
            forall|j: int| 0 <= j < res.1@.len() ==> #[trigger] res.0.row(j) == self.subset_row(row_sets(res.1@), row_sets(res.1@)[j], seq_view(self.letters@)),
            forall|j: int| 0 <= j < res.1@.len() ==> #[trigger] res.1@[j].is_end == self.touches_end(row_sets(res.1@)[j]),
            forall|j: int| 0 <= j < res.1@.len() ==> (#[trigger] res.1@[j]).targets@.len() == self.letters@.len(),
            forall|j: int, t: int| 0 <= j < res.1@.len() && 0 <= t < self.letters@.len() ==>
                good_state((#[trigger] res.1@[j].targets@[t])@, self.edges@.len())
                && res.1@[j].targets@[t]@.to_set() == self.spec_step(row_sets(res.1@)[j], self.letters@[t]@),
            res.0.end@.to_set() == Set::new(|k: usize| k < res.1@.len() && self.touches_end(row_sets(res.1@)[k as int])),
            crate::automaton::laws::determinized(self, &res.0, res.1@),
            res.0.end@ == end_listing(self, row_sets(res.1@), Seq::new(res.1@.len(), |j: int| res.0.row(j))),
    {
        let n = self.edges.len();
        let ghost ls = seq_view(self.letters@);
        let ghost range = Seq::new(n as nat, |i: int| i as usize);
        let ghost u = range.to_set();
        proof {
            vstd::seq_lib::seq_to_set_is_finite(range);
            lemma_subsets_finite(u);
        }
        let first = self.start_closure();
        let mut end: Vec<usize> = Vec::new();
        if self.holds_end(&first) {
            end.push(0);
        }
        let ghost fst = first@;
        let mut states: Vec<Vec<usize>> = Vec::new();
        states.push(first);
        let mut edges: Vec<Vec<(Letter, usize)>> = Vec::new();
        edges.push(Vec::new());
        let mut rows: Vec<SubsetRow> = Vec::new();
        let mut h: usize = 0;
        proof {
            assert(vec_sets(states@)[0] == fst.to_set());
            assert forall|k: usize| end@.to_set().contains(k) <==> (k < states@.len() && self.touches_end(vec_sets(states@)[k as int])) by {
                if end@.to_set().contains(k) {
                    let m = choose|m: int| 0 <= m < end@.len() && end@[m] == k;
                }
                if k < states@.len() && self.touches_end(vec_sets(states@)[k as int]) {
                    assert(k == 0);
                    assert(end@[0] == 0);
                }
            }
            assert(end@.to_set() =~= Set::new(|k: usize| k < states@.len() && self.touches_end(vec_sets(states@)[k as int])));
            assert(end@ =~= end_listing(self, vec_sets(states@), Seq::new(0, |j: int| edges_view(edges@[j]@))));
        }
        while h < states.len()
            invariant
                n == self.edges@.len(),
                self.wf(),
                self.start < n,
                ls == seq_view(self.letters@),
                range.len() == n,
                forall|i: int| 0 <= i < n ==> range[i] == i,
                u == range.to_set(),
                subsets_of(u).finite(),
                1 <= states@.len(),
                h <= states@.len(),
                edges@.len() == states@.len(),
                rows@.len() == h,
                forall|j: int| 0 <= j < states@.len() ==> good_state(#[trigger] states@[j]@, n as nat),
                vec_sets(states@)[0] == self.eps_closure(set![self.start]),
                distinct_sets(vec_sets(states@)),
                forall|j: int| 1 <= j < states@.len() ==> #[trigger] self.reached_before(vec_sets(states@), j, j, ls),
                forall|j: int| 0 <= j < h ==> #[trigger] self.steps_within(vec_sets(states@), vec_sets(states@)[j], ls),
                forall|j: int| 0 <= j < h ==> #[trigger] edges_view(edges@[j]@) == self.subset_row(vec_sets(states@), vec_sets(states@)[j], ls),
                forall|j: int| 0 <= j < h ==> (#[trigger] rows@[j]).set@ == states@[j]@,
                forall|j: int| 0 <= j < h ==> #[trigger] rows@[j].is_end == self.touches_end(vec_sets(states@)[j]),
                forall|j: int| 0 <= j < h ==> (#[trigger] rows@[j]).targets@.len() == ls.len(),
                forall|j: int, t: int| 0 <= j < h && 0 <= t < ls.len() ==>
                    good_state((#[trigger] rows@[j].targets@[t])@, n as nat)
                    && rows@[j].targets@[t]@.to_set() == self.spec_step(vec_sets(states@)[j], ls[t]),
                end@.to_set() == Set::new(|k: usize| k < states@.len() && self.touches_end(vec_sets(states@)[k as int])),
                end@ == end_listing(self, vec_sets(states@), Seq::new(h as nat, |j: int| edges_view(edges@[j]@))),
                forall|j: int, i: int| 0 <= j < h && 0 <= i < edges@[j]@.len() ==> #[trigger] edges@[j]@[i].1 < states@.len(),
            decreases subsets_of(u).len() - h,
        {
            proof {
                assert forall|j: int| 0 <= j < vec_sets(states@).len() implies subsets_of(u).contains(#[trigger] vec_sets(states@)[j]) by {
                    assert forall|x: usize| vec_sets(states@)[j].contains(x) implies u.contains(x) by {
                        let k = choose|k: int| 0 <= k < states@[j]@.len() && states@[j]@[k] == x;
                        assert(range[x as int] == x);
                    }
                }
                lemma_distinct_within_len(vec_sets(states@), subsets_of(u));
            }
            let p = copy_indices(&states[h]);
            let ghost pset = p@.to_set();
            let is_end = self.holds_end(&p);
            let mut targets: Vec<Vec<usize>> = Vec::new();
            let mut row: Vec<(Letter, usize)> = Vec::new();
            let ghost done = Seq::new(h as nat, |j: int| edges_view(edges@[j]@));
            let ghost sets0 = vec_sets(states@);
            let ghost states0 = states@;
            let ghost edges0 = edges@;
            assert(ls.take(0) =~= Seq::<SpecLetter>::empty());
            proof {
                assert(done =~= Seq::new(h as nat, |j: int| edges_view(edges0[j]@)));
                assert forall|j: int, i: int| 0 <= j < done.len() && 0 <= i < done[j].len() implies #[trigger] done[j][i].1 < sets0.len() by {
                    assert(done[j][i].1 == edges@[j]@[i].1);
                }
                assert(edges_view(row@) =~= Seq::<(SpecLetter, usize)>::empty());
                assert(row_hits(self, vec_sets(states@), edges_view(row@)) =~= Seq::<usize>::empty());
                assert(end@ =~= end_listing(self, vec_sets(states@), done) + row_hits(self, vec_sets(states@), edges_view(row@)));
            }
            for t in 0..self.letters.len()
                invariant
                    n == self.edges@.len(),
                    self.wf(),
                    ls == seq_view(self.letters@),
                    h < sets0.len(),
                    sets0.len() <= states@.len(),
                    forall|k: int| 0 <= k < sets0.len() ==> vec_sets(states@)[k] == sets0[k],
                    p@ == states@[h as int]@,
                    pset == p@.to_set(),
                    pset == sets0[h as int],
                    good_state(p@, n as nat),
                    edges@.len() == states@.len(),
                    forall|j: int| 0 <= j < edges0.len() ==> edges@[j] == edges0[j],
                    edges0.len() == sets0.len(),
                    forall|j: int| 0 <= j < states@.len() ==> good_state(#[trigger] states@[j]@, n as nat),
                    distinct_sets(vec_sets(states@)),
                    forall|j: int| 1 <= j < states@.len() ==> #[trigger] self.reached_before(vec_sets(states@), j, j, ls),
                    states0.len() == sets0.len(),
                    forall|k: int| 0 <= k < states0.len() ==> states@[k] == states0[k],
                    edges_view(row@) == self.subset_row(vec_sets(states@), pset, ls.take(t as int)),
                    self.steps_within(vec_sets(states@), pset, ls.take(t as int)),
                    targets@.len() == t,
                    forall|t2: int| 0 <= t2 < t ==>
                        good_state((#[trigger] targets@[t2])@, n as nat)
                        && targets@[t2]@.to_set() == self.spec_step(pset, ls[t2]),
                    end@.to_set() == Set::new(|k: usize| k < states@.len() && self.touches_end(vec_sets(states@)[k as int])),
                    done == Seq::new(h as nat, |j: int| edges_view(edges0[j]@)),
                    forall|j: int, i: int| 0 <= j < done.len() && 0 <= i < done[j].len() ==> #[trigger] done[j][i].1 < sets0.len(),
                    end@ == end_listing(self, vec_sets(states@), done) + row_hits(self, vec_sets(states@), edges_view(row@)),
                    forall|i: int| 0 <= i < row@.len() ==> #[trigger] row@[i].1 < states@.len(),
            {
                let ghost sets1 = vec_sets(states@);
                let letter = self.letters[t].clone();
                let to = self.step(&p, letter);
                let ghost tset = to@.to_set();
                proof {
                    assert(p@.to_set() == pset);
                    assert(ls[t as int] == self.letters@[t as int]@);
                    assert(tset == self.spec_step(pset, ls[t as int]));
                    if to@.len() > 0 {
                        assert(tset.contains(to@[0]));
                    } else {
                        assert(tset =~= Set::<usize>::empty());
                    }
                    assert(ls.take(t + 1).drop_last() =~= ls.take(t as int));
                    assert(ls.take(t + 1).last() == ls[t as int]);
                }
                if to.len() != 0 {
                    let found = find_state(&states, &to);
                    let number: usize;
                    match found {
                        Some(k) => {
                            number = k;
                        },
                        None => {
                            proof {
                                assert forall|k: int| 0 <= k < sets1.len() implies sets1[k] != tset by {
                                    if sets1[k] == tset {
                                        lemma_ascending_set_eq(states@[k]@, to@);
                                    }
                                }
                            }
                            let ghost st0 = states@;
                            states.push(copy_indices(&to));
                            edges.push(Vec::new());
                            number = states.len() - 1;
                            proof {
                                lemma_vec_sets_push(st0, to);
                                assert(vec_sets(states@) == sets1.push(tset));
                            }
                        },
                    }
                    let ghost sets2 = vec_sets(states@);
                    proof {
                        assert(sets2[number as int] == tset);
                        assert(state_index(sets2, tset) == number) by {
                            let c = state_index(sets2, tset);
                            assert(sets2[c] == tset);
                        }
                        assert(sets1.len() <= sets2.len());
                        assert forall|k: int| 0 <= k < sets1.len() implies sets2[k] == sets1[k] by {}
                        lemma_subset_row_stable(self, sets1, sets2, pset, ls.take(t as int));
                    }
                    let ghost row0 = row@;
                    let ghost end0 = end@;
                    if self.holds_end(&to) {
                        end.push(number);
                    }
                    row.push((self.letters[t].clone(), number));
                    proof {
                        assert forall|i: int| 0 <= i < edges_view(row0).len() implies #[trigger] edges_view(row0)[i].1 < sets1.len() by {
                            assert(row0[i].1 < sets1.len());
                        }
                        lemma_row_hits_stable(self, sets1, sets2, edges_view(row0));
                        assert forall|j: int, i: int| 0 <= j < done.len() && 0 <= i < done[j].len() implies #[trigger] done[j][i].1 < sets1.len() by {}
                        lemma_end_listing_stable(self, sets1, sets2, done);
                        assert(edges_view(row@).drop_last() =~= edges_view(row0));
                        assert(edges_view(row@).last().1 == number);
                        assert(sets2[number as int] == tset);
                        if self.touches_end(tset) {
                            assert(end@ =~= end0.push(number));
                        } else {
                            assert(end@ == end0);
                        }
                        assert(end@ =~= end_listing(self, sets2, done) + row_hits(self, sets2, edges_view(row@)));
                        assert forall|i: int| 0 <= i < row@.len() implies #[trigger] row@[i].1 < states@.len() by {
                            if i < row0.len() {
                                assert(row@[i] == row0[i]);
                            }
                        }
                    }
                    proof {
                        assert(edges_view(row@) =~= self.subset_row(sets1, pset, ls.take(t as int)).push((ls[t as int], number)));
                        assert(edges_view(row@) == self.subset_row(sets2, pset, ls.take(t + 1)));
                        assert(self.steps_within(sets2, pset, ls.take(t + 1))) by {
                            assert forall|t2: int| 0 <= t2 < ls.take(t + 1).len() && self.spec_step(pset, ls.take(t + 1)[t2]) != Set::<usize>::empty() implies
                                exists|k: int| 0 <= k < sets2.len() && sets2[k] == #[trigger] self.spec_step(pset, ls.take(t + 1)[t2]) by {
                                if t2 < t {
                                    assert(ls.take(t + 1)[t2] == ls.take(t as int)[t2]);
                                    let k = choose|k: int| 0 <= k < sets1.len() && sets1[k] == #[trigger] self.spec_step(pset, ls.take(t as int)[t2]);
                                    assert(sets2[k] == sets1[k]);
                                } else {
                                    assert(sets2[number as int] == tset);
                                }
                            }
                        }
                        assert forall|j: int| 1 <= j < states@.len() implies #[trigger] self.reached_before(sets2, j, j, ls) by {
                            if j < sets1.len() {
                                assert(self.reached_before(sets1, j, j, ls));
                                let (i, t2) = choose|i: int, t2: int| 0 <= i < j && 0 <= t2 < ls.len() && sets1[j] == #[trigger] self.spec_step(sets1[i], ls[t2]);
                                assert(sets2[i] == sets1[i]);
                                assert(sets2[j] == self.spec_step(sets2[i], ls[t2]));
                            } else {
                                assert(sets2[j] == tset);
                                assert(sets2[h as int] == pset);
                                assert(sets2[j] == self.spec_step(sets2[h as int], ls[t as int]));
                            }
                        }
                        assert forall|k: usize| end@.to_set().contains(k) <==> (k < states@.len() && self.touches_end(sets2[k as int])) by {
                            assert(end0.to_set().contains(k) <==> (k < sets1.len() && self.touches_end(sets1[k as int])));
                            if end@.to_set().contains(k) {
                                let m = choose|m: int| 0 <= m < end@.len() && end@[m] == k;
                                if m < end0.len() {
                                    assert(end0[m] == k);
                                    assert(end0.to_set().contains(k));
                                    assert(sets2[k as int] == sets1[k as int]);
                                } else {
                                    assert(k == number);
                                }
                            }
                            if k < states@.len() && self.touches_end(sets2[k as int]) {
                                if k == number {
                                    assert(end@[end@.len() - 1] == k);
                                } else {
                                    assert(k < sets1.len());
                                    assert(sets2[k as int] == sets1[k as int]);
                                    assert(end0.to_set().contains(k));
                                    let m = choose|m: int| 0 <= m < end0.len() && end0[m] == k;
                                    assert(end@[m] == k);
                                }
                            }
                        }
                        assert(end@.to_set() =~= Set::new(|k: usize| k < states@.len() && self.touches_end(sets2[k as int])));
                    }
                } else {
                    proof {
                        assert(edges_view(row@) == self.subset_row(sets1, pset, ls.take(t + 1)));
                        assert(self.steps_within(sets1, pset, ls.take(t + 1))) by {
                            assert forall|t2: int| 0 <= t2 < ls.take(t + 1).len() && self.spec_step(pset, ls.take(t + 1)[t2]) != Set::<usize>::empty() implies
                                exists|k: int| 0 <= k < sets1.len() && sets1[k] == #[trigger] self.spec_step(pset, ls.take(t + 1)[t2]) by {
                                assert(t2 < t);
                                assert(ls.take(t + 1)[t2] == ls.take(t as int)[t2]);
                            }
                        }
                    }
                }
                targets.push(to);
            }
            let ghost sets3 = vec_sets(states@);
            proof {
                assert(ls.take(ls.len() as int) =~= ls);
                assert forall|j: int| 0 <= j < h implies #[trigger] self.steps_within(sets3, sets3[j], ls) by {
                    assert(self.steps_within(sets0, sets0[j], ls));
                    assert forall|t2: int| 0 <= t2 < ls.len() && self.spec_step(sets3[j], ls[t2]) != Set::<usize>::empty() implies
                        exists|k: int| 0 <= k < sets3.len() && sets3[k] == #[trigger] self.spec_step(sets3[j], ls[t2]) by {
                        assert(sets3[j] == sets0[j]);
                        let k = choose|k: int| 0 <= k < sets0.len() && sets0[k] == #[trigger] self.spec_step(sets0[j], ls[t2]);
                        assert(sets3[k] == sets0[k]);
                    }
                }
                assert forall|j: int| 0 <= j < h implies #[trigger] edges_view(edges@[j]@) == self.subset_row(sets3, sets3[j], ls) by {
                    assert(edges@[j] == edges0[j]);
                    assert(edges_view(edges0[j]@) == self.subset_row(sets0, sets0[j], ls));
                    assert(sets3[j] == sets0[j]);
                    assert(self.steps_within(sets0, sets0[j], ls));
                    lemma_subset_row_stable(self, sets0, sets3, sets0[j], ls);
                }
            }
            let ghost last_row = row@;
            edges.set(h, row);
            rows.push(SubsetRow { set: p, is_end, targets });
            proof {
                assert(Seq::new((h + 1) as nat, |j: int| edges_view(edges@[j]@)) =~= done.push(edges_view(last_row))) by {
                    assert forall|j: int| 0 <= j < h implies edges@[j] == edges0[j] by {}
                }
                assert(done.push(edges_view(last_row)).drop_last() =~= done);
                assert forall|j: int, i: int| 0 <= j < h + 1 && 0 <= i < edges@[j]@.len() implies #[trigger] edges@[j]@[i].1 < states@.len() by {
                    if j < h {
                        assert(edges@[j] == edges0[j]);
                        assert(done[j][i].1 == edges0[j]@[i].1);
                    } else {
                        assert(edges@[j]@ == last_row);
                    }
                }
                assert forall|j: int| 0 <= j < h + 1 implies (#[trigger] rows@[j]).set@ == states@[j]@ by {
                    if j < h {
                        assert(states@[j] == states0[j]);
                    }
                }
            }
            h = h + 1;
        }
        let dfa = DFA { start: 0, end, letters: clone_letters(&self.letters), edges };
        proof {
            assert(row_sets(rows@) =~= vec_sets(states@));
            assert(Seq::new(rows@.len(), |j: int| dfa.row(j)) =~= Seq::new(h as nat, |j: int| edges_view(edges@[j]@)));
        }
        (dfa, rows)
    }
}
} // verus!

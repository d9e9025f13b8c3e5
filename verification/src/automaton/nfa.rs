use vstd::prelude::*;
use vstd::string::*;
use crate::grammar::letter::{Letter, SpecLetter, seq_view, spec_letter_str, spec_letter_display};
use crate::utils::show::{Shown, decimal};
use crate::utils::{closed_under, least_closed, lemma_least_closed_init, lemma_least_closed_step, lemma_least_closed_eq, lemma_least_closed_min};
use super::dfa::{DFA, edges_view};

verus! {

/// `std`'s sort on a vector of indices, ascending: the same indices in increasing order.
#[verifier::external_body]
pub(crate) fn sort_indices(v: &mut Vec<usize>)
    ensures
        final(v)@.to_multiset() == old(v)@.to_multiset(),
        ascending(final(v)@),
{
    v.sort()
}

/// A nondeterministic finite automaton: start state, final states, alphabet, and for
/// each state its transitions; the empty word labels the spontaneous ones.
#[derive(Debug)]
pub struct NFA {
    pub start: usize,
    pub end: Vec<usize>,
    pub letters: Vec<Letter>,
    pub edges: Vec<Vec<(Letter, usize)>>,
}

/// A transition of `edges` from `u` to `v` on `x`.
pub open spec fn has_edge(edges: Seq<Seq<(SpecLetter, usize)>>, u: usize, x: SpecLetter, v: usize) -> bool {
    u < edges.len() && exists|i: int| 0 <= i < edges[u as int].len() && #[trigger] edges[u as int][i] == (x, v)
}

impl NFA {
    /// The transitions of all states.
    pub open spec fn rows(&self) -> Seq<Seq<(SpecLetter, usize)>> {
        self.edges@.map_values(|r: Vec<(Letter, usize)>| edges_view(r@))
    }

    /// Every transition leads to a state of the automaton.
    pub open spec fn wf(&self) -> bool {
        forall|u: int, i: int| 0 <= u < self.edges@.len() && 0 <= i < self.edges@[u]@.len() ==> (#[trigger] self.edges@[u]@[i]).1 < self.edges@.len()
    }

    /// A spontaneous transition.
    pub open spec fn eps_edge(&self) -> spec_fn(usize, usize) -> bool {
        |u: usize, v: usize| has_edge(self.rows(), u, SpecLetter::Empty, v)
    }

    /// The states reachable from `seed` by spontaneous transitions.
    pub open spec fn eps_closure(&self, seed: Set<usize>) -> Set<usize> {
        least_closed(seed, self.eps_edge())
    }

    /// The states reached from `seed` by one transition on `x`.
    pub open spec fn moves(&self, seed: Set<usize>, x: SpecLetter) -> Set<usize> {
        Set::new(|v: usize| exists|u: usize| seed.contains(u) && #[trigger] has_edge(self.rows(), u, x, v))
    }

    /// The states reached from `seed` on `x`, spontaneous transitions included after it.
    pub open spec fn spec_step(&self, seed: Set<usize>, x: SpecLetter) -> Set<usize> {
        self.eps_closure(self.moves(seed, x))
    }
}

/// Some transition among the first `k` of `row` goes to `v` on `x`.
pub open spec fn matched_within(row: Seq<(Letter, usize)>, x: SpecLetter, k: int, v: usize) -> bool {
    exists|k2: int| 0 <= k2 < k && (#[trigger] row[k2]).0@ == x && row[k2].1 == v
}

/// A sequence of indices in increasing order.
pub open spec fn ascending(s: Seq<usize>) -> bool {
    forall|i: int, j: int| 0 <= i < j < s.len() ==> s[i] <= s[j]
}

/// `n` times `false`.
pub fn falses(n: usize) -> (res: Vec<bool>)
    ensures
        res@.len() == n,
        forall|i: int| 0 <= i < n ==> !res@[i],
{
    let mut v: Vec<bool> = Vec::new();
    for i in 0..n
        invariant
            v@.len() == i,
            forall|j: int| 0 <= j < i ==> !v@[j],
    {
        v.push(false);
    }
    v
}

/// The count of `x` in the closure of `seed` as `epsilon_closure` lists it: as often as
/// in `seed` if there, else once if reachable.
pub open spec fn closure_count(nfa: &NFA, seed: Seq<usize>, x: usize) -> nat {
    if seed.contains(x) {
        seed.to_multiset().count(x)
    } else if nfa.eps_closure(seed.to_set()).contains(x) {
        1
    } else {
        0
    }
}

/// Closing twice adds nothing: the spontaneous closure of a set holds the set and is closed
/// under spontaneous transitions, so closing it again gives it back.
pub proof fn law_closure_idempotent(nfa: &NFA, seed: Set<usize>)
    ensures
        seed.subset_of(nfa.eps_closure(seed)),
        nfa.eps_closure(nfa.eps_closure(seed)) == nfa.eps_closure(seed),
{
    let e = nfa.eps_edge();
    let c = nfa.eps_closure(seed);
    assert forall|x: usize| seed.contains(x) implies c.contains(x) by {
        lemma_least_closed_init(seed, e, x);
    }
    assert(closed_under(e, c)) by {
        assert forall|u: usize, v: usize| c.contains(u) && #[trigger] e(u, v) implies c.contains(v) by {
            lemma_least_closed_step(seed, e, u, v);
        }
    }
    lemma_least_closed_min(c, e, c);
    assert forall|x: usize| c.contains(x) implies nfa.eps_closure(c).contains(x) by {
        lemma_least_closed_init(c, e, x);
    }
    assert(nfa.eps_closure(c) =~= c);
}

impl NFA {
    /// The states reachable from `seed` by spontaneous transitions, in increasing order:
    /// those of `seed` as often as there, the others once.
    pub fn epsilon_closure(&self, seed: &Vec<usize>) -> (res: Vec<usize>)
        requires
            self.wf(),
            forall|i: int| 0 <= i < seed@.len() ==> (#[trigger] seed@[i]) < self.edges@.len(),
        ensures
            ascending(res@),
            forall|x: usize| #[trigger] res@.to_multiset().count(x) == closure_count(self, seed@, x),
    {
        let n = self.edges.len();
        let ghost init = seed@.to_set();
        let ghost edge = self.eps_edge();
        let ghost range = Seq::new(n as nat, |i: int| i as usize);
        let mut vis = falses(n);
        let mut queue: Vec<usize> = Vec::new();
        for i in 0..seed.len()
            invariant
                n == self.edges@.len(),
                vis@.len() == n,
                forall|i: int| 0 <= i < seed@.len() ==> (#[trigger] seed@[i]) < n,
                forall|v: int| 0 <= v < n ==> (vis@[v] <==> seed@.take(i as int).contains(v as usize)),
                forall|j: int| 0 <= j < queue@.len() ==> (#[trigger] queue@[j]) < n && vis@[queue@[j] as int],
                forall|v: usize| seed@.take(i as int).contains(v) ==> queue@.contains(v),
        {
            let x = seed[i];
            vis.set(x, true);
            queue.push(x);
            proof {
                broadcast use vstd::seq_lib::lemma_seq_contains_after_push;
                assert(seed@.take(i + 1) =~= seed@.take(i as int).push(x));
            }
        }
        assert(seed@.take(seed@.len() as int) =~= seed@);
        let mut ans = seed.clone();
        let ghost mut added: Seq<usize> = Seq::empty();
        assert(ans@ =~= seed@ + added);
        while queue.len() != 0
            invariant
                n == self.edges@.len(),
                self.wf(),
                init == seed@.to_set(),
                edge == self.eps_edge(),
                range.len() == n,
                forall|i: int| 0 <= i < n ==> range[i] == i,
                vis@.len() == n,
                forall|i: int| 0 <= i < seed@.len() ==> (#[trigger] seed@[i]) < n,
                ans@ == seed@ + added,
                added.no_duplicates(),
                forall|j: int| 0 <= j < added.len() ==> (#[trigger] added[j]) < n && !seed@.contains(added[j]),
                forall|j: int| 0 <= j < added.len() ==> least_closed(init, edge).contains(#[trigger] added[j]),
                forall|v: int| 0 <= v < n ==> (vis@[v] <==> (seed@.contains(v as usize) || added.contains(v as usize))),
                forall|j: int| 0 <= j < queue@.len() ==> (#[trigger] queue@[j]) < n && vis@[queue@[j] as int],
                forall|u: usize, v: usize| u < n && vis@[u as int] && !queue@.contains(u) && #[trigger] edge(u, v) ==> v < n && vis@[v as int],
            decreases n - added.len(), queue@.len(),
        {
            proof {
                assert forall|j: int| 0 <= j < added.len() implies range.contains(#[trigger] added[j]) by {
                    assert(range[added[j] as int] == added[j]);
                }
                crate::utils::lemma_distinct_within_seq_len(added, range);
            }
            let ghost q0 = queue@;
            let p = queue.pop().unwrap();
            let row = &self.edges[p];
            let ghost added0 = added;
            let ghost qlen0 = queue@.len();
            proof {
                broadcast use vstd::seq_lib::lemma_seq_contains_after_push;
                assert(q0 =~= queue@.push(p));
                assert forall|u: usize| q0.contains(u) && u != p implies queue@.contains(u) by {
                    let j = choose|j: int| 0 <= j < q0.len() && q0[j] == u;
                    assert(j < queue@.len());
                    assert(queue@[j] == u);
                }
            }
            for k in 0..row.len()
                invariant
                    n == self.edges@.len(),
                    self.wf(),
                    init == seed@.to_set(),
                    edge == self.eps_edge(),
                    p < n,
                    *row == self.edges@[p as int],
                    vis@.len() == n,
                    vis@[p as int],
                    ans@ == seed@ + added,
                    added.no_duplicates(),
                    added0.len() <= added.len(),
                    queue@.len() == qlen0 + (added.len() - added0.len()),
                    forall|j: int| 0 <= j < added.len() ==> (#[trigger] added[j]) < n && !seed@.contains(added[j]),
                    forall|j: int| 0 <= j < added.len() ==> least_closed(init, edge).contains(#[trigger] added[j]),
                    forall|v: int| 0 <= v < n ==> (vis@[v] <==> (seed@.contains(v as usize) || added.contains(v as usize))),
                    forall|j: int| 0 <= j < queue@.len() ==> (#[trigger] queue@[j]) < n && vis@[queue@[j] as int],
                    forall|u: usize, v: usize| u < n && vis@[u as int] && !queue@.contains(u) && u != p && #[trigger] edge(u, v) ==> v < n && vis@[v as int],
                    forall|k2: int| 0 <= k2 < k && (#[trigger] row@[k2]).0@ == SpecLetter::Empty ==> vis@[row@[k2].1 as int],
                    least_closed(init, edge).contains(p) || seed@.contains(p),
            {
                let to = row[k].1;
                assert(to < n);
                if row[k].0.is_empty() && !vis[to] {
                    proof {
                        assert(self.rows()[p as int][k as int] == (SpecLetter::Empty, to));
                        assert(edge(p, to));
                        if seed@.contains(p) {
                            assert(init.contains(p));
                            lemma_least_closed_init(init, edge, p);
                        }
                        lemma_least_closed_step(init, edge, p, to);
                    }
                    ans.push(to);
                    queue.push(to);
                    vis.set(to, true);
                    proof {
                        broadcast use vstd::seq_lib::lemma_seq_contains_after_push;
                        crate::utils::lemma_push_no_dup(added, to);
                        added = added.push(to);
                        assert(ans@ =~= seed@ + added);
                    }
                }
            }
            proof {
                broadcast use vstd::seq_lib::lemma_seq_contains_after_push;
                assert forall|u: usize, v: usize| u < n && vis@[u as int] && !queue@.contains(u) && #[trigger] edge(u, v) implies v < n && vis@[v as int] by {
                    if u == p {
                        let i = choose|i: int| 0 <= i < self.rows()[u as int].len() && #[trigger] self.rows()[u as int][i] == (SpecLetter::Empty, v);
                        assert(self.rows()[u as int][i] == (row@[i].0@, row@[i].1));
                    }
                }
                assert forall|j: int| 0 <= j < added.len() implies range.contains(#[trigger] added[j]) by {
                    assert(range[added[j] as int] == added[j]);
                }
                crate::utils::lemma_distinct_within_seq_len(added, range);
            }
        }
        proof {
            let s = seed@.to_set().union(added.to_set());
            assert(init.subset_of(s));
            assert(closed_under(edge, s)) by {
                assert forall|u: usize, v: usize| s.contains(u) && #[trigger] edge(u, v) implies s.contains(v) by {
                    if seed@.to_set().contains(u) {
                        let j = choose|j: int| 0 <= j < seed@.len() && seed@[j] == u;
                    }
                    assert(u < n);
                    assert(vis@[u as int]);
                    assert(vis@[v as int]);
                }
            }
            assert(s.subset_of(least_closed(init, edge))) by {
                assert forall|x: usize| s.contains(x) implies least_closed(init, edge).contains(x) by {
                    if added.to_set().contains(x) {
                        let j = choose|j: int| 0 <= j < added.len() && added[j] == x;
                    }
                }
            }
            lemma_least_closed_eq(init, edge, s);
        }
        let ghost before_sort = ans@;
        sort_indices(&mut ans);
        proof {
            assert forall|x: usize| #[trigger] ans@.to_multiset().count(x) == closure_count(self, seed@, x) by {
                lemma_count_concat(seed@, added, x);
                added.to_multiset_ensures();
                seed@.to_multiset_ensures();
                if !seed@.contains(x) {
                    if self.eps_closure(seed@.to_set()).contains(x) {
                        assert(seed@.to_set().union(added.to_set()).contains(x));
                        assert(added.contains(x));
                        added.lemma_multiset_has_no_duplicates();
                    } else {
                        assert(!added.contains(x)) by {
                            if added.contains(x) {
                                assert(seed@.to_set().union(added.to_set()).contains(x));
                            }
                        }
                    }
                } else {
                    assert(!added.contains(x));
                }
            }
        }
        ans
    }
}

/// Counting in a concatenation adds the counts.
proof fn lemma_count_concat(a: Seq<usize>, b: Seq<usize>, x: usize)
    ensures
        (a + b).to_multiset().count(x) == a.to_multiset().count(x) + b.to_multiset().count(x),
{
    vstd::seq_lib::lemma_multiset_commutative(a, b);
}

/// Counts of at most one make a sequence without repetitions.
pub proof fn lemma_counts_no_dup(s: Seq<usize>)
    requires
        forall|x: usize| #[trigger] s.to_multiset().count(x) <= 1,
    ensures
        s.no_duplicates(),
{
    assert forall|i: int, j: int| 0 <= i < s.len() && 0 <= j < s.len() && i != j implies s[i] != s[j] by {
        if s[i] == s[j] {
            let lo = if i < j { i } else { j };
            let hi = if i < j { j } else { i };
            lemma_count_two_usize(s, lo, hi);
        }
    }
}

proof fn lemma_count_two_usize(t: Seq<usize>, i: int, j: int)
    requires
        0 <= i < j < t.len(),
        t[i] == t[j],
    ensures
        t.to_multiset().count(t[i]) >= 2,
    decreases t.len(),
{
    t.to_multiset_ensures();
    let u = t.drop_last();
    assert(t =~= u.push(t.last()));
    u.to_multiset_ensures();
    if j == t.len() - 1 {
        assert(u.contains(t[i])) by { assert(u[i] == t[i]); }
        assert(u.to_multiset().count(t[i]) > 0);
    } else {
        assert(u[i] == t[i] && u[j] == t[j]);
        lemma_count_two_usize(u, i, j);
    }
}

impl NFA {
    /// The states reached from `seed` on `le`, spontaneous transitions included after
    /// it, each once and in increasing order.
    pub fn step(&self, seed: &Vec<usize>, le: Letter) -> (res: Vec<usize>)
        requires
            self.wf(),
            forall|i: int| 0 <= i < seed@.len() ==> (#[trigger] seed@[i]) < self.edges@.len(),
        ensures
            ascending(res@),
            res@.no_duplicates(),
            res@.to_set() == self.spec_step(seed@.to_set(), le@),
            forall|i: int| 0 <= i < res@.len() ==> (#[trigger] res@[i]) < self.edges@.len(),
    {
        let n = self.edges.len();
        let mut ans: Vec<usize> = Vec::new();
        let mut vis = falses(n);
        for i in 0..seed.len()
            invariant
                n == self.edges@.len(),
                self.wf(),
                vis@.len() == n,
                forall|i: int| 0 <= i < seed@.len() ==> (#[trigger] seed@[i]) < n,
                ans@.no_duplicates(),
                forall|j: int| 0 <= j < ans@.len() ==> (#[trigger] ans@[j]) < n,
                forall|v: int| 0 <= v < n ==> (vis@[v] <==> ans@.contains(v as usize)),
                forall|v: usize| ans@.contains(v) <==> exists|u: usize| seed@.take(i as int).contains(u) && #[trigger] has_edge(self.rows(), u, le@, v),
        {
            let u = seed[i];
            let row = &self.edges[u];
            let ghost a0 = ans@;
            for k in 0..row.len()
                invariant
                    n == self.edges@.len(),
                    self.wf(),
                    u < n,
                    *row == self.edges@[u as int],
                    vis@.len() == n,
                    ans@.no_duplicates(),
                    forall|j: int| 0 <= j < ans@.len() ==> (#[trigger] ans@[j]) < n,
                    forall|v: int| 0 <= v < n ==> (vis@[v] <==> ans@.contains(v as usize)),
                    forall|v: usize| #[trigger] ans@.contains(v) <==> a0.contains(v) || matched_within(row@, le@, k as int, v),
            {
                let to = row[k].1;
                assert(to < n);
                let ghost b = ans@;
                let matches = row[k].0 == le;
                if matches && !vis[to] {
                    ans.push(to);
                    vis.set(to, true);
                    proof {
                        broadcast use vstd::seq_lib::lemma_seq_contains_after_push;
                        crate::utils::lemma_push_no_dup(b, to);
                    }
                }
                proof {
                    broadcast use vstd::seq_lib::lemma_seq_contains_after_push;
                    assert forall|v: usize| #[trigger] ans@.contains(v) <==> a0.contains(v) || matched_within(row@, le@, k + 1, v) by {
                        if v == to && matches {
                            assert(row@[k as int].0@ == le@ && row@[k as int].1 == v);
                            assert(ans@.contains(v));
                        }
                        if matched_within(row@, le@, k + 1, v) {
                            let k2 = choose|k2: int| 0 <= k2 < k + 1 && (#[trigger] row@[k2]).0@ == le@ && row@[k2].1 == v;
                            if k2 < k {
                                assert(matched_within(row@, le@, k as int, v));
                                assert(b.contains(v));
                            } else {
                                assert(matches);
                                assert(v == to);
                            }
                        }
                        if matched_within(row@, le@, k as int, v) {
                            let k2 = choose|k2: int| 0 <= k2 < k && (#[trigger] row@[k2]).0@ == le@ && row@[k2].1 == v;
                            assert(matched_within(row@, le@, k + 1, v));
                        }
                        if ans@.contains(v) && !b.contains(v) {
                            assert(v == to);
                        }
                    }
                }
            }
            proof {
                broadcast use vstd::seq_lib::lemma_seq_contains_after_push;
                assert(seed@.take(i + 1) =~= seed@.take(i as int).push(u));
                assert forall|v: usize| ans@.contains(v) <==> exists|w: usize| seed@.take(i + 1).contains(w) && #[trigger] has_edge(self.rows(), w, le@, v) by {
                    if ans@.contains(v) && !a0.contains(v) {
                        assert(matched_within(row@, le@, row@.len() as int, v));
                        let k2 = choose|k2: int| 0 <= k2 < row@.len() && (#[trigger] row@[k2]).0@ == le@ && row@[k2].1 == v;
                        assert(self.rows()[u as int][k2] == (row@[k2].0@, row@[k2].1));
                        assert(has_edge(self.rows(), u, le@, v));
                    }
                    if exists|w: usize| seed@.take(i + 1).contains(w) && #[trigger] has_edge(self.rows(), w, le@, v) {
                        let w = choose|w: usize| seed@.take(i + 1).contains(w) && #[trigger] has_edge(self.rows(), w, le@, v);
                        if w == u && !seed@.take(i as int).contains(w) {
                            let k2 = choose|k2: int| 0 <= k2 < self.rows()[u as int].len() && #[trigger] self.rows()[u as int][k2] == (le@, v);
                            assert(self.rows()[u as int][k2] == (row@[k2].0@, row@[k2].1));
                            assert(matched_within(row@, le@, row@.len() as int, v));
                        } else if w == u {
                        }
                    }
                }
            }
        }
        assert(seed@.take(seed@.len() as int) =~= seed@);
        proof {
            assert(ans@.to_set() =~= self.moves(seed@.to_set(), le@)) by {
                assert forall|v: usize| ans@.to_set().contains(v) <==> self.moves(seed@.to_set(), le@).contains(v) by {
                    if self.moves(seed@.to_set(), le@).contains(v) {
                        let w = choose|w: usize| seed@.to_set().contains(w) && #[trigger] has_edge(self.rows(), w, le@, v);
                        assert(seed@.contains(w));
                    }
                }
            }
        }
        let res = self.epsilon_closure(&ans);
        proof {
            ans@.to_multiset_ensures();
            assert forall|x: usize| #[trigger] res@.to_multiset().count(x) <= 1 by {
                if ans@.contains(x) {
                    ans@.lemma_multiset_has_no_duplicates();
                }
            }
            lemma_counts_no_dup(res@);
            res@.to_multiset_ensures();
            assert forall|x: usize| res@.to_set().contains(x) <==> self.eps_closure(ans@.to_set()).contains(x) by {
                assert(res@.contains(x) <==> res@.to_multiset().count(x) > 0);
                if ans@.contains(x) {
                    ans@.lemma_multiset_has_no_duplicates();
                    assert(ans@.to_set().contains(x));
                    lemma_least_closed_init(ans@.to_set(), self.eps_edge(), x);
                }
            }
            assert(res@.to_set() =~= self.spec_step(seed@.to_set(), le@));
            assert forall|i: int| 0 <= i < res@.len() implies (#[trigger] res@[i]) < self.edges@.len() by {
                let x = res@[i];
                assert(res@.contains(x));
                assert(res@.to_multiset().count(x) > 0);
                if !ans@.contains(x) {
                    assert(self.eps_closure(ans@.to_set()).contains(x));
                    lemma_closure_in_range(self, ans@.to_set(), x);
                }
            }
        }
        res
    }
}

/// The closure of states of the automaton holds states of the automaton.
pub proof fn lemma_closure_in_range(nfa: &NFA, seed: Set<usize>, x: usize)
    requires
        nfa.wf(),
        forall|v: usize| seed.contains(v) ==> v < nfa.edges@.len(),
        nfa.eps_closure(seed).contains(x),
    ensures
        x < nfa.edges@.len(),
{
    let s = Set::new(|v: usize| v < nfa.edges@.len());
    assert(closed_under(nfa.eps_edge(), s)) by {
        assert forall|u: usize, v: usize| s.contains(u) && #[trigger] nfa.eps_edge()(u, v) implies s.contains(v) by {
            let i = choose|i: int| 0 <= i < nfa.rows()[u as int].len() && #[trigger] nfa.rows()[u as int][i] == (SpecLetter::Empty, v);
            assert(nfa.rows()[u as int][i].1 == nfa.edges@[u as int]@[i].1);
        }
    }
    crate::utils::lemma_least_closed_min(seed, nfa.eps_edge(), s);
}

/// The alphabet printed as `a b c ` (each symbol followed by a space).
pub open spec fn spaced_letters(s: Seq<SpecLetter>) -> Seq<char>
    decreases s.len(),
{
    if s.len() == 0 {
        seq![]
    } else {
        spaced_letters(s.drop_last()) + spec_letter_display(s.last()) + seq![' ']
    }
}

/// The transitions of a state, one per line: `    a -> 3`.
pub open spec fn transition_lines(r: Seq<(SpecLetter, usize)>) -> Seq<char>
    decreases r.len(),
{
    if r.len() == 0 {
        seq![]
    } else {
        transition_lines(r.drop_last()) + seq![' ', ' ', ' ', ' '] + spec_letter_str(r.last().0) + seq![' ', '-', '>', ' ']
            + decimal(r.last().1 as nat) + seq!['\n']
    }
}

/// The states in order, each as `i:` on a line followed by its transitions.
pub open spec fn state_blocks(rows: Seq<Seq<(SpecLetter, usize)>>) -> Seq<char>
    decreases rows.len(),
{
    if rows.len() == 0 {
        seq![]
    } else {
        state_blocks(rows.drop_last()) + decimal((rows.len() - 1) as nat) + seq![':', '\n'] + transition_lines(rows.last())
    }
}

/// The printed form of an automaton: `letters:`, its alphabet, then its states.
pub open spec fn nfa_display(letters: Seq<SpecLetter>, rows: Seq<Seq<(SpecLetter, usize)>>) -> Seq<char> {
    seq!['l', 'e', 't', 't', 'e', 'r', 's', ':', '\n'] + spaced_letters(letters) + seq!['\n'] + state_blocks(rows)
}

fn transitions_to_string(r: &Vec<(Letter, usize)>) -> (res: String)
    ensures
        res@ == transition_lines(edges_view(r@)),
{
    let mut s = String::new();
    for k in 0..r.len()
        invariant
            s@ == transition_lines(edges_view(r@).take(k as int)),
    {
        proof {
            reveal_strlit("    ");
            reveal_strlit(" -> ");
            reveal_strlit("\n");
        }
        s.append("    ");
        s.append(r[k].0.get_str());
        s.append(" -> ");
        let d = r[k].1.shown();
        s.append(d.as_str());
        s.append("\n");
        assert(edges_view(r@).take(k + 1).drop_last() =~= edges_view(r@).take(k as int));
    }
    assert(edges_view(r@).take(r@.len() as int) =~= edges_view(r@));
    s
}

impl NFA {
    /// The printed form: the alphabet, then each state with its transitions.
    pub fn to_string(&self) -> (res: String)
        ensures
            res@ == nfa_display(seq_view(self.letters@), self.rows()),
    {
        proof {
            reveal_strlit("letters:\n");
        }
        let mut s = String::from_str("letters:\n");
        for i in 0..self.letters.len()
            invariant
                s@ == seq!['l', 'e', 't', 't', 'e', 'r', 's', ':', '\n'] + spaced_letters(seq_view(self.letters@).take(i as int)),
        {
            proof {
                reveal_strlit(" ");
            }
            let t = self.letters[i].to_string();
            s.append(t.as_str());
            s.append(" ");
            assert(seq_view(self.letters@).take(i + 1).drop_last() =~= seq_view(self.letters@).take(i as int));
        }
        assert(seq_view(self.letters@).take(self.letters@.len() as int) =~= seq_view(self.letters@));
        proof {
            reveal_strlit("\n");
        }
        s.append("\n");
        let ghost head = s@;
        for i in 0..self.edges.len()
            invariant
                head == seq!['l', 'e', 't', 't', 'e', 'r', 's', ':', '\n'] + spaced_letters(seq_view(self.letters@)) + seq!['\n'],
                s@ == head + state_blocks(self.rows().take(i as int)),
        {
            proof {
                reveal_strlit(":\n");
            }
            let d = i.shown();
            s.append(d.as_str());
            s.append(":\n");
            let t = transitions_to_string(&self.edges[i]);
            s.append(t.as_str());
            assert(self.rows().take(i + 1).drop_last() =~= self.rows().take(i as int));
            assert(self.rows().take(i + 1).last() == edges_view(self.edges@[i as int]@));
        }
        assert(self.rows().take(self.edges@.len() as int) =~= self.rows());
        s
    }
}

} // verus!
